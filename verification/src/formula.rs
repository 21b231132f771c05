//! The formula model: a recursive expression tree over boolean variables,
//! together with the Tseytin transformation that turns any formula into an
//! equisatisfiable conjunction of clauses of linear size.

use vstd::prelude::*;

use vstd::string::StringExecFns;

use crate::cnf::{Conjunction, Disjunction, LitView, Literal, Valuation};
use crate::names::{gate_name, gen_var, has_gate_prefix};

verus! {

/// A propositional formula: constants, variables, negation, conjunction
/// and disjunction. Each non-leaf node owns its children exclusively.
pub enum Formula {
    And(Box<Formula>, Box<Formula>),
    Or(Box<Formula>, Box<Formula>),
    Not(Box<Formula>),
    Var(String),
    Constant(bool),
}

/// The number of nodes of a formula tree.
pub open spec fn fsize(f: Formula) -> nat
    decreases f,
{
    match f {
        Formula::And(l, r) => 1 + fsize(*l) + fsize(*r),
        Formula::Or(l, r) => 1 + fsize(*l) + fsize(*r),
        Formula::Not(s) => 1 + fsize(*s),
        Formula::Var(_) => 1,
        Formula::Constant(_) => 1,
    }
}

/// The number of non-leaf nodes of a formula tree.
pub open spec fn nontrivial_count(f: Formula) -> nat
    decreases f,
{
    match f {
        Formula::And(l, r) => 1 + nontrivial_count(*l) + nontrivial_count(*r),
        Formula::Or(l, r) => 1 + nontrivial_count(*l) + nontrivial_count(*r),
        Formula::Not(s) => 1 + nontrivial_count(*s),
        Formula::Var(_) => 0,
        Formula::Constant(_) => 0,
    }
}

/// The truth value of a formula under a total valuation.
pub open spec fn feval(f: Formula, v: Valuation) -> bool
    decreases f,
{
    match f {
        Formula::And(l, r) => feval(*l, v) && feval(*r, v),
        Formula::Or(l, r) => feval(*l, v) || feval(*r, v),
        Formula::Not(s) => !feval(*s, v),
        Formula::Var(n) => v(n@),
        Formula::Constant(b) => b,
    }
}

/// A formula is satisfiable when some total valuation makes it true.
pub open spec fn formula_satisfiable(f: Formula) -> bool {
    exists|v: Valuation| feval(f, v)
}

/// No variable of the formula carries the reserved gate prefix. The
/// encoder's gate names are then distinct from every user variable name
/// by construction.
pub open spec fn vars_unprefixed(f: Formula) -> bool
    decreases f,
{
    match f {
        Formula::And(l, r) => vars_unprefixed(*l) && vars_unprefixed(*r),
        Formula::Or(l, r) => vars_unprefixed(*l) && vars_unprefixed(*r),
        Formula::Not(s) => vars_unprefixed(*s),
        Formula::Var(n) => !has_gate_prefix(n@),
        Formula::Constant(_) => true,
    }
}

/// The fully parenthesized infix text of a formula.
pub open spec fn formula_text(f: Formula) -> Seq<char>
    decreases f,
{
    match f {
        Formula::And(l, r) => seq!['('] + formula_text(*l) + seq![' ', '∧', ' ']
            + formula_text(*r) + seq![')'],
        Formula::Or(l, r) => seq!['('] + formula_text(*l) + seq![' ', '∨', ' ']
            + formula_text(*r) + seq![')'],
        Formula::Not(s) => seq!['¬'] + formula_text(*s),
        Formula::Var(n) => n@,
        Formula::Constant(b) => if b {
            seq!['⊤']
        } else {
            seq!['⊥']
        },
    }
}

/// The name standing for a formula in the encoding rooted at this index:
/// a user variable keeps its own name, every other node gets a gate
/// with that index.
pub open spec fn root_name(f: Formula, idx: nat) -> Seq<char> {
    match f {
        Formula::Var(n) => n@,
        _ => gate_name(idx),
    }
}

/// The reduced form of one subformula: the node with each child replaced
/// by the name standing for it.
pub enum GateShape {
    Var(Seq<char>),
    Not(Seq<char>),
    And(Seq<char>, Seq<char>),
    Or(Seq<char>, Seq<char>),
    Const(bool),
}

/// The flattening pass of the Tseytin transformation: one pair per node,
/// the pair for the node itself first, then the pairs of the left subtree,
/// then those of the right, depth first. Child gate indices are offset by
/// the parent's index plus one, then by the size of the left subtree, so
/// all indices in the result are distinct without a shared counter.
pub open spec fn spec_reduce(f: Formula, idx: nat) -> Seq<(Seq<char>, GateShape)>
    decreases f,
{
    match f {
        Formula::Var(n) => seq![(n@, GateShape::Var(n@))],
        Formula::Not(s) => seq![(gate_name(idx), GateShape::Not(root_name(*s, idx + 1)))]
            + spec_reduce(*s, idx + 1),
        Formula::And(l, r) => seq![
            (
                gate_name(idx),
                GateShape::And(root_name(*l, idx + 1), root_name(*r, idx + 1 + fsize(*l))),
            ),
        ] + spec_reduce(*l, idx + 1) + spec_reduce(*r, idx + 1 + fsize(*l)),
        Formula::Or(l, r) => seq![
            (
                gate_name(idx),
                GateShape::Or(root_name(*l, idx + 1), root_name(*r, idx + 1 + fsize(*l))),
            ),
        ] + spec_reduce(*l, idx + 1) + spec_reduce(*r, idx + 1 + fsize(*l)),
        Formula::Constant(b) => seq![(gate_name(idx), GateShape::Const(b))],
    }
}

/// One literal, as clause material.
pub open spec fn lv(name: Seq<char>, negated: bool) -> LitView {
    LitView { name, negated }
}

/// The clauses encoding "gate `g` holds exactly when the reduced node
/// holds", following the standard Tseytin clause table.
pub open spec fn clauses_of_pair(g: Seq<char>, s: GateShape) -> Seq<Seq<LitView>> {
    match s {
        GateShape::Var(y) => if y == g {
            Seq::empty()
        } else {
            seq![seq![lv(g, true), lv(y, false)], seq![lv(g, false), lv(y, true)]]
        },
        GateShape::Not(y) => seq![
            seq![lv(g, true), lv(y, true)],
            seq![lv(g, false), lv(y, false)],
        ],
        GateShape::And(l, r) => seq![
            seq![lv(g, true), lv(l, false)],
            seq![lv(g, true), lv(r, false)],
            seq![lv(g, false), lv(l, true), lv(r, true)],
        ],
        GateShape::Or(l, r) => seq![
            seq![lv(g, false), lv(l, true)],
            seq![lv(g, false), lv(r, true)],
            seq![lv(g, true), lv(l, false), lv(r, false)],
        ],
        GateShape::Const(b) => seq![seq![lv(g, !b)]],
    }
}

/// All clauses of a list of gate definitions, in order.
pub open spec fn clauses_of_pairs(ps: Seq<(Seq<char>, GateShape)>) -> Seq<Seq<LitView>>
    decreases ps.len(),
{
    if ps.len() == 0 {
        Seq::empty()
    } else {
        clauses_of_pairs(ps.drop_last()) + clauses_of_pair(ps.last().0, ps.last().1)
    }
}

/// The conjunction the Tseytin transformation produces for a formula.
pub open spec fn spec_cnf(f: Formula) -> Seq<Seq<LitView>> {
    clauses_of_pairs(spec_reduce(f, 0))
}

/// The flattening pass yields one pair per node, and the first pair is
/// the one standing for the whole formula.
pub proof fn lemma_spec_reduce_basic(f: Formula, idx: nat)
    ensures
        spec_reduce(f, idx).len() == fsize(f),
        spec_reduce(f, idx)[0].0 == root_name(f, idx),
    decreases f,
{
    match f {
        Formula::And(l, r) => {
            lemma_spec_reduce_basic(*l, idx + 1);
            lemma_spec_reduce_basic(*r, idx + 1 + fsize(*l));
        },
        Formula::Or(l, r) => {
            lemma_spec_reduce_basic(*l, idx + 1);
            lemma_spec_reduce_basic(*r, idx + 1 + fsize(*l));
        },
        Formula::Not(s) => {
            lemma_spec_reduce_basic(*s, idx + 1);
        },
        _ => {},
    }
}

/// One gate definition produced by the flattening pass: a gate's name
/// and the reduced node it stands for, each operand already a name.
pub(crate) struct GateDef {
    pub(crate) name: String,
    pub(crate) op: GateOp,
}

/// The reduced node of a gate definition.
pub(crate) enum GateOp {
    Var(String),
    Not(String),
    And(String, String),
    Or(String, String),
    Const(bool),
}

impl View for GateDef {
    type V = (Seq<char>, GateShape);

    closed spec fn view(&self) -> (Seq<char>, GateShape) {
        (
            self.name@,
            match self.op {
                GateOp::Var(ref y) => GateShape::Var(y@),
                GateOp::Not(ref y) => GateShape::Not(y@),
                GateOp::And(ref l, ref r) => GateShape::And(l@, r@),
                GateOp::Or(ref l, ref r) => GateShape::Or(l@, r@),
                GateOp::Const(b) => GateShape::Const(b),
            },
        )
    }
}

impl Formula {
    /// Count the non-leaf nodes of the formula: conjunctions, disjunctions
    /// and negations; variables and constants contribute nothing.
    pub fn count_nontrivial_subformulas(&self) -> (r: usize)
        requires
            fsize(*self) <= usize::MAX,
        ensures
            r == nontrivial_count(*self),
        decreases *self,
    {
        proof {
            lemma_nontrivial_le_fsize(*self);
        }
        match self {
            Formula::And(l, r) => {
                proof {
                    lemma_nontrivial_le_fsize(**l);
                    lemma_nontrivial_le_fsize(**r);
                }
                1 + l.count_nontrivial_subformulas() + r.count_nontrivial_subformulas()
            },
            Formula::Or(l, r) => {
                proof {
                    lemma_nontrivial_le_fsize(**l);
                    lemma_nontrivial_le_fsize(**r);
                }
                1 + l.count_nontrivial_subformulas() + r.count_nontrivial_subformulas()
            },
            Formula::Not(s) => 1 + s.count_nontrivial_subformulas(),
            Formula::Var(_) => 0,
            Formula::Constant(_) => 0,
        }
    }

    /// The formula as a fully parenthesized infix string: deterministic
    /// and side-effect-free, for logging and debugging.
    pub fn render(&self) -> (r: String)
        ensures
            r@ == formula_text(*self),
        decreases *self,
    {
        match self {
            Formula::And(l, r) => {
                proof {
                    reveal_strlit("(");
                    reveal_strlit(" ∧ ");
                    reveal_strlit(")");
                }
                let mut s = String::from_str("(");
                let left_text = l.render();
                s.append(left_text.as_str());
                s.append(" ∧ ");
                let right_text = r.render();
                s.append(right_text.as_str());
                s.append(")");
                proof {
                    assert(s@ =~= formula_text(*self));
                }
                s
            },
            Formula::Or(l, r) => {
                proof {
                    reveal_strlit("(");
                    reveal_strlit(" ∨ ");
                    reveal_strlit(")");
                }
                let mut s = String::from_str("(");
                let left_text = l.render();
                s.append(left_text.as_str());
                s.append(" ∨ ");
                let right_text = r.render();
                s.append(right_text.as_str());
                s.append(")");
                proof {
                    assert(s@ =~= formula_text(*self));
                }
                s
            },
            Formula::Not(sub) => {
                proof {
                    reveal_strlit("¬");
                }
                let mut s = String::from_str("¬");
                let sub_text = sub.render();
                s.append(sub_text.as_str());
                proof {
                    assert(s@ =~= formula_text(*self));
                }
                s
            },
            Formula::Var(n) => n.clone(),
            Formula::Constant(b) => {
                proof {
                    reveal_strlit("⊤");
                    reveal_strlit("⊥");
                }
                let s = if *b {
                    String::from_str("⊤")
                } else {
                    String::from_str("⊥")
                };
                proof {
                    assert(s@ =~= formula_text(*self));
                }
                s
            },
        }
    }

    /// The flattening pass, executably: one gate definition per node,
    /// ordered as `spec_reduce` describes.
    fn reduce(&self, idx: usize) -> (r: Vec<GateDef>)
        requires
            idx + fsize(*self) <= usize::MAX,
        ensures
            r@.map_values(|g: GateDef| g@) == spec_reduce(*self, idx as nat),
            r@.len() == fsize(*self),
        decreases *self,
    {
        proof {
            lemma_spec_reduce_basic(*self, idx as nat);
        }
        let mut assignments: Vec<GateDef> = Vec::new();
        match self {
            Formula::Var(name) => {
                assignments.push(GateDef { name: name.clone(), op: GateOp::Var(name.clone()) });
            },
            Formula::Not(sub) => {
                proof {
                    lemma_spec_reduce_basic(**sub, idx as nat + 1);
                }
                let mut reduced = sub.reduce(idx + 1);
                let subvariable = reduced[0].name.clone();
                assignments.push(GateDef { name: gen_var(idx), op: GateOp::Not(subvariable) });
                assignments.append(&mut reduced);
            },
            Formula::And(left, right) => {
                proof {
                    lemma_spec_reduce_basic(**left, idx as nat + 1);
                }
                let mut left_reduced = left.reduce(idx + 1);
                let left_var = left_reduced[0].name.clone();
                proof {
                    lemma_spec_reduce_basic(**right, idx as nat + 1 + fsize(**left));
                }
                let mut right_reduced = right.reduce(idx + left_reduced.len() + 1);
                let right_var = right_reduced[0].name.clone();
                assignments.push(
                    GateDef { name: gen_var(idx), op: GateOp::And(left_var, right_var) },
                );
                assignments.append(&mut left_reduced);
                assignments.append(&mut right_reduced);
            },
            Formula::Or(left, right) => {
                proof {
                    lemma_spec_reduce_basic(**left, idx as nat + 1);
                }
                let mut left_reduced = left.reduce(idx + 1);
                let left_var = left_reduced[0].name.clone();
                proof {
                    lemma_spec_reduce_basic(**right, idx as nat + 1 + fsize(**left));
                }
                let mut right_reduced = right.reduce(idx + left_reduced.len() + 1);
                let right_var = right_reduced[0].name.clone();
                assignments.push(
                    GateDef { name: gen_var(idx), op: GateOp::Or(left_var, right_var) },
                );
                assignments.append(&mut left_reduced);
                assignments.append(&mut right_reduced);
            },
            Formula::Constant(val) => {
                assignments.push(GateDef { name: gen_var(idx), op: GateOp::Const(*val) });
            },
        }
        proof {
            assert(assignments@.map_values(|g: GateDef| g@) =~= spec_reduce(*self, idx as nat));
        }
        assignments
    }

    /// Convert the formula into conjunctive normal form by the Tseytin
    /// transformation: flatten the tree into gate definitions, then emit
    /// the clause set tying each gate to its reduced node. The result is
    /// equisatisfiable with the formula once the root gate is asserted;
    /// no clause asserting the root is added here.
    pub fn get_cnf(&self) -> (r: Conjunction)
        requires
            fsize(*self) <= usize::MAX,
        ensures
            r@ == spec_cnf(*self),
    {
        let defs = self.reduce(0);
        emit_clauses(&defs)
    }
}

/// Non-leaf nodes are never more numerous than all nodes.
pub proof fn lemma_nontrivial_le_fsize(f: Formula)
    ensures
        nontrivial_count(f) <= fsize(f),
    decreases f,
{
    match f {
        Formula::And(l, r) => {
            lemma_nontrivial_le_fsize(*l);
            lemma_nontrivial_le_fsize(*r);
        },
        Formula::Or(l, r) => {
            lemma_nontrivial_le_fsize(*l);
            lemma_nontrivial_le_fsize(*r);
        },
        Formula::Not(s) => {
            lemma_nontrivial_le_fsize(*s);
        },
        _ => {},
    }
}

/// The clause-emission pass: the Tseytin clause set of every gate
/// definition, in order.
fn emit_clauses(defs: &Vec<GateDef>) -> (r: Conjunction)
    ensures
        r@ == clauses_of_pairs(defs@.map_values(|g: GateDef| g@)),
{
    let ghost pairs = defs@.map_values(|g: GateDef| g@);
    let mut conj = Conjunction::new();
    let n = defs.len();
    let mut i: usize = 0;
    while i < n
        invariant
            0 <= i <= n,
            n == defs@.len(),
            pairs == defs@.map_values(|g: GateDef| g@),
            conj@ == clauses_of_pairs(pairs.take(i as int)),
        decreases n - i,
    {
        let def = &defs[i];
        let ghost gv = def@.0;
        let ghost shape = def@.1;
        let var_name = &def.name;
        match &def.op {
            GateOp::Var(other_name) => {
                if other_name.eq(var_name) {
                    // The node is the variable itself: nothing to encode.
                } else {
                    let mut disj1 = Disjunction::new();
                    disj1.add_literal(Literal::new(var_name.clone(), true));
                    disj1.add_literal(Literal::new(other_name.clone(), false));
                    conj.add_disjunction(disj1);

                    let mut disj2 = Disjunction::new();
                    disj2.add_literal(Literal::new(var_name.clone(), false));
                    disj2.add_literal(Literal::new(other_name.clone(), true));
                    conj.add_disjunction(disj2);
                }
            },
            GateOp::Not(sub_name) => {
                let mut disj1 = Disjunction::new();
                disj1.add_literal(Literal::new(var_name.clone(), true));
                disj1.add_literal(Literal::new(sub_name.clone(), true));
                conj.add_disjunction(disj1);

                let mut disj2 = Disjunction::new();
                disj2.add_literal(Literal::new(var_name.clone(), false));
                disj2.add_literal(Literal::new(sub_name.clone(), false));
                conj.add_disjunction(disj2);
            },
            GateOp::And(left_name, right_name) => {
                let mut disj1 = Disjunction::new();
                disj1.add_literal(Literal::new(var_name.clone(), true));
                disj1.add_literal(Literal::new(left_name.clone(), false));
                conj.add_disjunction(disj1);

                let mut disj2 = Disjunction::new();
                disj2.add_literal(Literal::new(var_name.clone(), true));
                disj2.add_literal(Literal::new(right_name.clone(), false));
                conj.add_disjunction(disj2);

                let mut disj3 = Disjunction::new();
                disj3.add_literal(Literal::new(var_name.clone(), false));
                disj3.add_literal(Literal::new(left_name.clone(), true));
                disj3.add_literal(Literal::new(right_name.clone(), true));
                conj.add_disjunction(disj3);
            },
            GateOp::Or(left_name, right_name) => {
                let mut disj1 = Disjunction::new();
                disj1.add_literal(Literal::new(var_name.clone(), false));
                disj1.add_literal(Literal::new(left_name.clone(), true));
                conj.add_disjunction(disj1);

                let mut disj2 = Disjunction::new();
                disj2.add_literal(Literal::new(var_name.clone(), false));
                disj2.add_literal(Literal::new(right_name.clone(), true));
                conj.add_disjunction(disj2);

                let mut disj3 = Disjunction::new();
                disj3.add_literal(Literal::new(var_name.clone(), true));
                disj3.add_literal(Literal::new(left_name.clone(), false));
                disj3.add_literal(Literal::new(right_name.clone(), false));
                conj.add_disjunction(disj3);
            },
            GateOp::Const(val) => {
                let mut disj = Disjunction::new();
                disj.add_literal(Literal::new(var_name.clone(), !*val));
                conj.add_disjunction(disj);
            },
        }
        proof {
            assert(pairs.take(i + 1).drop_last() =~= pairs.take(i as int));
            assert(pairs.take(i + 1).last() == pairs[i as int]);
            assert(pairs[i as int] == (gv, shape));
            assert(conj@ =~~= clauses_of_pairs(pairs.take(i as int)) + clauses_of_pair(gv, shape));
        }
        i = i + 1;
    }
    proof {
        assert(pairs.take(n as int) =~= pairs);
    }
    conj
}

} // verus!
