//! Conjunctive normal form: literals, disjunctions (clauses) and the
//! conjunction of clauses, together with their logical semantics.
//!
//! An empty disjunction denotes the constant false; an empty conjunction
//! denotes the constant true. The search engine depends on both conventions.

use vstd::prelude::*;

use vstd::string::StringExecFns;

use crate::assignments::Assignments;

verus! {

/// A total truth valuation: every variable name receives a boolean value.
pub type Valuation = spec_fn(Seq<char>) -> bool;

/// The mathematical model of a literal: a variable name and a polarity.
pub struct LitView {
    pub name: Seq<char>,
    pub negated: bool,
}

/// A literal is true under a total valuation when the variable's value
/// matches the literal's polarity.
pub open spec fn lit_holds(l: LitView, v: Valuation) -> bool {
    v(l.name) != l.negated
}

/// A disjunction is true under a total valuation when some literal is.
pub open spec fn clause_holds(d: Seq<LitView>, v: Valuation) -> bool {
    exists|i: int| 0 <= i < d.len() && lit_holds(d[i], v)
}

/// A conjunction is true under a total valuation when every clause is.
pub open spec fn cnf_holds(c: Seq<Seq<LitView>>, v: Valuation) -> bool {
    forall|i: int| 0 <= i < c.len() ==> clause_holds(#[trigger] c[i], v)
}

/// One partial assignment extends another: it binds every variable the
/// smaller one binds, to the same value.
pub open spec fn extends_map(b: Map<Seq<char>, bool>, a: Map<Seq<char>, bool>) -> bool {
    forall|k: Seq<char>| #[trigger] a.dom().contains(k) ==> b.dom().contains(k) && a[k] == b[k]
}

/// A total valuation agrees with a partial assignment map on its domain.
pub open spec fn agrees_with(v: Valuation, a: Map<Seq<char>, bool>) -> bool {
    forall|k: Seq<char>| a.dom().contains(k) ==> v(k) == a[k]
}

/// A conjunction is satisfiable from a partial assignment when some total
/// valuation extending the assignment makes every clause true.
pub open spec fn satisfiable_from(c: Seq<Seq<LitView>>, a: Map<Seq<char>, bool>) -> bool {
    exists|v: Valuation| agrees_with(v, a) && cnf_holds(c, v)
}

/// A literal is already satisfied by a partial assignment.
pub open spec fn lit_sat_by(l: LitView, a: Map<Seq<char>, bool>) -> bool {
    a.dom().contains(l.name) && a[l.name] != l.negated
}

/// A disjunction is already satisfied by a partial assignment.
pub open spec fn clause_sat_by(d: Seq<LitView>, a: Map<Seq<char>, bool>) -> bool {
    exists|i: int| 0 <= i < d.len() && lit_sat_by(d[i], a)
}

/// Every clause of the conjunction is already satisfied by the assignment.
pub open spec fn cnf_sat_by(c: Seq<Seq<LitView>>, a: Map<Seq<char>, bool>) -> bool {
    forall|i: int| 0 <= i < c.len() ==> clause_sat_by(#[trigger] c[i], a)
}

/// The literals of a clause whose variables the assignment leaves open,
/// in their original order.
pub open spec fn keep_unassigned(d: Seq<LitView>, a: Map<Seq<char>, bool>) -> Seq<LitView>
    decreases d.len(),
{
    if d.len() == 0 {
        Seq::empty()
    } else {
        let rest = keep_unassigned(d.drop_last(), a);
        if a.dom().contains(d.last().name) {
            rest
        } else {
            rest.push(d.last())
        }
    }
}

/// Simplification of a conjunction under a partial assignment: clauses with
/// a satisfied literal are dropped whole; each remaining clause keeps only
/// the literals whose variables are still unassigned.
pub open spec fn simplify_cnf(c: Seq<Seq<LitView>>, a: Map<Seq<char>, bool>) -> Seq<Seq<LitView>>
    decreases c.len(),
{
    if c.len() == 0 {
        Seq::empty()
    } else {
        let rest = simplify_cnf(c.drop_last(), a);
        if clause_sat_by(c.last(), a) {
            rest
        } else {
            rest.push(keep_unassigned(c.last(), a))
        }
    }
}

/// The set of variable names a clause mentions.
pub open spec fn clause_vars(d: Seq<LitView>) -> Set<Seq<char>>
    decreases d.len(),
{
    if d.len() == 0 {
        Set::empty()
    } else {
        clause_vars(d.drop_last()).insert(d.last().name)
    }
}

/// The set of variable names a conjunction mentions.
pub open spec fn cnf_vars(c: Seq<Seq<LitView>>) -> Set<Seq<char>>
    decreases c.len(),
{
    if c.len() == 0 {
        Set::empty()
    } else {
        cnf_vars(c.drop_last()).union(clause_vars(c.last()))
    }
}

/// The text of a literal: the variable name, under a negation sign when
/// the literal is negated.
pub open spec fn literal_text(l: LitView) -> Seq<char> {
    if l.negated {
        seq!['¬'] + l.name
    } else {
        l.name
    }
}

/// The text between the parentheses of a rendered disjunction: its
/// literals joined by the disjunction sign.
pub open spec fn clause_body_text(d: Seq<LitView>) -> Seq<char>
    decreases d.len(),
{
    if d.len() == 0 {
        Seq::empty()
    } else if d.len() == 1 {
        literal_text(d[0])
    } else {
        clause_body_text(d.drop_last()) + seq![' ', '∨', ' '] + literal_text(d.last())
    }
}

/// The text of a disjunction: its literals joined by the disjunction
/// sign, parenthesized.
pub open spec fn clause_text(d: Seq<LitView>) -> Seq<char> {
    seq!['('] + clause_body_text(d) + seq![')']
}

/// The text between the parentheses of a rendered conjunction: its
/// disjunctions joined by the conjunction sign.
pub open spec fn cnf_body_text(c: Seq<Seq<LitView>>) -> Seq<char>
    decreases c.len(),
{
    if c.len() == 0 {
        Seq::empty()
    } else if c.len() == 1 {
        clause_text(c[0])
    } else {
        cnf_body_text(c.drop_last()) + seq![' ', '∧', ' '] + clause_text(c.last())
    }
}

/// The text of a conjunction: its disjunctions joined by the conjunction
/// sign, parenthesized.
pub open spec fn cnf_text(c: Seq<Seq<LitView>>) -> Seq<char> {
    seq!['('] + cnf_body_text(c) + seq![')']
}

/// A variable or its negation, as it occurs inside a disjunction.
pub struct Literal {
    name: String,
    negated: bool,
}

impl View for Literal {
    type V = LitView;

    closed spec fn view(&self) -> LitView {
        LitView { name: self.name@, negated: self.negated }
    }
}

impl Clone for Literal {
    fn clone(&self) -> (r: Self)
        ensures
            r@ == self@,
    {
        Literal { name: self.name.clone(), negated: self.negated }
    }
}

impl Literal {
    pub fn new(name: String, negated: bool) -> (r: Literal)
        ensures
            r@ == (LitView { name: name@, negated }),
    {
        Literal { name, negated }
    }

    pub fn get_name(&self) -> (r: &String)
        ensures
            r@ == self@.name,
    {
        &self.name
    }

    pub fn is_negated(&self) -> (r: bool)
        ensures
            r == self@.negated,
    {
        self.negated
    }

    /// The literal as text: its variable name, under a negation sign when
    /// the literal is negated.
    pub fn render(&self) -> (r: String)
        ensures
            r@ == literal_text(self@),
    {
        if self.negated {
            proof {
                reveal_strlit("¬");
            }
            let mut s = String::from_str("¬");
            s.append(self.name.as_str());
            proof {
                assert(s@ =~= literal_text(self@));
            }
            s
        } else {
            self.name.clone()
        }
    }
}

/// An ordered sequence of literals, representing their logical OR.
/// An empty disjunction denotes the constant false.
pub struct Disjunction {
    literals: Vec<Literal>,
}

impl View for Disjunction {
    type V = Seq<LitView>;

    closed spec fn view(&self) -> Seq<LitView> {
        self.literals@.map_values(|l: Literal| l@)
    }
}

impl Disjunction {
    pub fn new() -> (r: Disjunction)
        ensures
            r@ == Seq::<LitView>::empty(),
    {
        let d = Disjunction { literals: Vec::new() };
        proof {
            assert(d@ =~= Seq::<LitView>::empty());
        }
        d
    }

    pub fn add_literal(&mut self, literal: Literal)
        ensures
            final(self)@ == old(self)@.push(literal@),
    {
        let ghost prev = self@;
        let ghost l = literal@;
        self.literals.push(literal);
        proof {
            assert(self@ =~= prev.push(l));
        }
    }

    pub fn get_literals(&self) -> (r: &Vec<Literal>)
        ensures
            r@.map_values(|l: Literal| l@) == self@,
    {
        &self.literals
    }

    /// An empty disjunction is trivially false.
    pub fn is_trivially_false(&self) -> (r: bool)
        ensures
            r == (self@.len() == 0),
    {
        self.literals.is_empty()
    }

    /// The disjunction as text: its literals joined by the disjunction
    /// sign, parenthesized.
    pub fn render(&self) -> (r: String)
        ensures
            r@ == clause_text(self@),
    {
        proof {
            reveal_strlit("(");
            reveal_strlit(")");
            reveal_strlit(" ∨ ");
        }
        let mut out = String::from_str("(");
        proof {
            assert(self@.take(0) =~= Seq::<LitView>::empty());
            assert(out@ =~= seq!['('] + clause_body_text(self@.take(0)));
        }
        let n = self.literals.len();
        let mut i: usize = 0;
        while i < n
            invariant
                0 <= i <= n,
                n == self@.len(),
                out@ == seq!['('] + clause_body_text(self@.take(i as int)),
            decreases n - i,
        {
            if i > 0 {
                out.append(" ∨ ");
            }
            let t = self.literals[i].render();
            out.append(t.as_str());
            proof {
                reveal_strlit(" ∨ ");
                assert(self@[i as int] == self.literals@[i as int]@);
                assert(self@.take(i + 1).drop_last() =~= self@.take(i as int));
                assert(self@.take(i + 1).last() == self@[i as int]);
                if i == 0 {
                    assert(self@.take(1)[0] == self@[0]);
                }
                assert(out@ =~= seq!['('] + clause_body_text(self@.take(i + 1)));
            }
            i = i + 1;
        }
        out.append(")");
        proof {
            reveal_strlit(")");
            assert(self@.take(n as int) =~= self@);
            assert(out@ =~= clause_text(self@));
        }
        out
    }
}

/// An ordered sequence of disjunctions, representing their logical AND:
/// the CNF formula itself. An empty conjunction denotes the constant true.
pub struct Conjunction {
    disjunctions: Vec<Disjunction>,
}

impl View for Conjunction {
    type V = Seq<Seq<LitView>>;

    closed spec fn view(&self) -> Seq<Seq<LitView>> {
        self.disjunctions@.map_values(|d: Disjunction| d@)
    }
}

impl Conjunction {
    pub fn new() -> (r: Conjunction)
        ensures
            r@ == Seq::<Seq<LitView>>::empty(),
    {
        let c = Conjunction { disjunctions: Vec::new() };
        proof {
            assert(c@ =~= Seq::<Seq<LitView>>::empty());
        }
        c
    }

    pub fn add_disjunction(&mut self, disjunction: Disjunction)
        ensures
            final(self)@ == old(self)@.push(disjunction@),
    {
        let ghost prev = self@;
        let ghost d = disjunction@;
        self.disjunctions.push(disjunction);
        proof {
            assert(self@ =~= prev.push(d));
        }
    }

    pub fn get_disjunctions(&self) -> (r: &Vec<Disjunction>)
        ensures
            r@.map_values(|d: Disjunction| d@) == self@,
    {
        &self.disjunctions
    }

    /// A conjunction is trivially false when some disjunction in it is empty.
    pub fn is_trivially_false(&self) -> (r: bool)
        ensures
            r == exists|i: int| 0 <= i < self@.len() && #[trigger] self@[i].len() == 0,
    {
        let n = self.disjunctions.len();
        let mut i: usize = 0;
        while i < n
            invariant
                0 <= i <= n,
                n == self@.len(),
                forall|j: int| 0 <= j < i ==> #[trigger] self@[j].len() != 0,
            decreases n - i,
        {
            if self.disjunctions[i].is_trivially_false() {
                proof {
                    assert(self@[i as int] == self.disjunctions@[i as int]@);
                }
                return true;
            }
            i = i + 1;
        }
        false
    }

    /// Simplify the conjunction under a partial assignment: a disjunction
    /// with a literal the assignment already satisfies is dropped whole;
    /// every other disjunction keeps exactly the literals whose variables
    /// are still unassigned (falsified literals are silently dropped).
    pub fn simplify(&self, assignments: &Assignments) -> (r: Conjunction)
        ensures
            r@ == simplify_cnf(self@, assignments@),
    {
        let mut conjunction = Conjunction::new();
        let n = self.disjunctions.len();
        let mut i: usize = 0;
        while i < n
            invariant
                0 <= i <= n,
                n == self@.len(),
                conjunction@ == simplify_cnf(self@.take(i as int), assignments@),
            decreases n - i,
        {
            let ghost dv = self@[i as int];
            proof {
                assert(dv == self.disjunctions@[i as int]@);
            }
            let disjunction = &self.disjunctions[i];
            let m = disjunction.literals.len();
            let mut new_disj = Disjunction::new();
            let mut satisfied = false;
            let mut j: usize = 0;
            while j < m && !satisfied
                invariant
                    0 <= j <= m,
                    m == dv.len(),
                    dv == disjunction@,
                    !satisfied ==> new_disj@ == keep_unassigned(dv.take(j as int), assignments@),
                    !satisfied ==> !clause_sat_by(dv.take(j as int), assignments@),
                    satisfied ==> clause_sat_by(dv, assignments@),
                decreases m - j,
            {
                let literal = &disjunction.literals[j];
                proof {
                    assert(dv[j as int] == disjunction.literals@[j as int]@);
                }
                match assignments.get(&literal.name) {
                    Some(value) => {
                        if value != literal.negated {
                            // The assignment satisfies this literal, so the
                            // whole disjunction is satisfied and is dropped.
                            satisfied = true;
                            proof {
                                assert(lit_sat_by(dv[j as int], assignments@));
                            }
                        } else {
                            // Falsified literal: dropped from the clause.
                            proof {
                                assert(dv.take(j + 1).drop_last() =~= dv.take(j as int));
                                assert(dv.take(j + 1).last() == dv[j as int]);
                                assert forall|k: int| 0 <= k < j + 1 implies
                                    !lit_sat_by(#[trigger] dv.take(j + 1)[k], assignments@) by {
                                    if k < j {
                                        assert(dv.take(j + 1)[k] == dv.take(j as int)[k]);
                                        assert(!clause_sat_by(dv.take(j as int), assignments@));
                                    }
                                }
                            }
                        }
                    },
                    None => {
                        // Still undetermined: the literal is kept.
                        new_disj.add_literal(literal.clone());
                        proof {
                            assert(dv.take(j + 1).drop_last() =~= dv.take(j as int));
                            assert(dv.take(j + 1).last() == dv[j as int]);
                            assert forall|k: int| 0 <= k < j + 1 implies
                                !lit_sat_by(#[trigger] dv.take(j + 1)[k], assignments@) by {
                                if k < j {
                                    assert(dv.take(j + 1)[k] == dv.take(j as int)[k]);
                                    assert(!clause_sat_by(dv.take(j as int), assignments@));
                                }
                            }
                        }
                    },
                }
                j = j + 1;
            }
            proof {
                assert(self@.take(i + 1).drop_last() =~= self@.take(i as int));
                assert(self@.take(i + 1).last() == dv);
            }
            if !satisfied {
                proof {
                    assert(dv.take(m as int) =~= dv);
                }
                conjunction.add_disjunction(new_disj);
            }
            i = i + 1;
        }
        proof {
            assert(self@.take(n as int) =~= self@);
        }
        conjunction
    }

    /// A conjunction is trivially true when it contains no disjunctions.
    pub fn is_trivially_true(&self) -> (r: bool)
        ensures
            r == (self@.len() == 0),
    {
        self.disjunctions.is_empty()
    }

    /// The conjunction as text: its disjunctions joined by the conjunction
    /// sign, parenthesized.
    pub fn render(&self) -> (r: String)
        ensures
            r@ == cnf_text(self@),
    {
        proof {
            reveal_strlit("(");
            reveal_strlit(")");
            reveal_strlit(" ∧ ");
        }
        let mut out = String::from_str("(");
        proof {
            assert(self@.take(0) =~= Seq::<Seq<LitView>>::empty());
            assert(out@ =~= seq!['('] + cnf_body_text(self@.take(0)));
        }
        let n = self.disjunctions.len();
        let mut i: usize = 0;
        while i < n
            invariant
                0 <= i <= n,
                n == self@.len(),
                out@ == seq!['('] + cnf_body_text(self@.take(i as int)),
            decreases n - i,
        {
            if i > 0 {
                out.append(" ∧ ");
            }
            let t = self.disjunctions[i].render();
            out.append(t.as_str());
            proof {
                reveal_strlit(" ∧ ");
                assert(self@[i as int] == self.disjunctions@[i as int]@);
                assert(self@.take(i + 1).drop_last() =~= self@.take(i as int));
                assert(self@.take(i + 1).last() == self@[i as int]);
                if i == 0 {
                    assert(self@.take(1)[0] == self@[0]);
                }
                assert(out@ =~= seq!['('] + cnf_body_text(self@.take(i + 1)));
            }
            i = i + 1;
        }
        out.append(")");
        proof {
            reveal_strlit(")");
            assert(self@.take(n as int) =~= self@);
            assert(out@ =~= cnf_text(self@));
        }
        out
    }
}

} // verus!
