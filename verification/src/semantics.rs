//! Proofs about the CNF semantics: simplification under a partial
//! assignment preserves truth under every extending valuation, the two
//! triviality verdicts mean what the search engine takes them to mean,
//! and simplification is idempotent.

use vstd::prelude::*;

use crate::cnf::{
    agrees_with, clause_holds, clause_sat_by, clause_vars, cnf_holds, cnf_sat_by, cnf_vars,
    extends_map, keep_unassigned, lit_holds, lit_sat_by, satisfiable_from, simplify_cnf, LitView, Valuation,
};

verus! {

/// A clause extended by one literal holds exactly when the clause held
/// already or the new literal does.
pub(crate) proof fn lemma_clause_holds_push(s: Seq<LitView>, x: LitView, v: Valuation)
    ensures
        clause_holds(s.push(x), v) == (clause_holds(s, v) || lit_holds(x, v)),
{
    if clause_holds(s, v) {
        let i = choose|i: int| 0 <= i < s.len() && lit_holds(s[i], v);
        assert(s.push(x)[i] == s[i]);
        assert(clause_holds(s.push(x), v));
    }
    if lit_holds(x, v) {
        assert(s.push(x)[s.len() as int] == x);
        assert(clause_holds(s.push(x), v));
    }
    if clause_holds(s.push(x), v) {
        let i = choose|i: int| 0 <= i < s.push(x).len() && lit_holds(s.push(x)[i], v);
        if i < s.len() {
            assert(s[i] == s.push(x)[i]);
            assert(clause_holds(s, v));
        } else {
            assert(s.push(x)[i] == x);
        }
    }
}

/// A conjunction extended by one clause holds exactly when both parts do.
pub(crate) proof fn lemma_cnf_holds_push(s: Seq<Seq<LitView>>, x: Seq<LitView>, v: Valuation)
    ensures
        cnf_holds(s.push(x), v) == (cnf_holds(s, v) && clause_holds(x, v)),
{
    if cnf_holds(s, v) && clause_holds(x, v) {
        assert forall|i: int| 0 <= i < s.push(x).len() implies
            clause_holds(#[trigger] s.push(x)[i], v) by {
            if i < s.len() {
                assert(s.push(x)[i] == s[i]);
            } else {
                assert(s.push(x)[i] == x);
            }
        }
    }
    if cnf_holds(s.push(x), v) {
        assert forall|i: int| 0 <= i < s.len() implies clause_holds(#[trigger] s[i], v) by {
            assert(s.push(x)[i] == s[i]);
            assert(clause_holds(s.push(x)[i], v));
        }
        assert(s.push(x)[s.len() as int] == x);
        assert(clause_holds(x, v));
    }
}

/// The same, for satisfaction by a partial assignment.
pub(crate) proof fn lemma_cnf_sat_by_push(s: Seq<Seq<LitView>>, x: Seq<LitView>, a: Map<Seq<char>, bool>)
    ensures
        cnf_sat_by(s.push(x), a) == (cnf_sat_by(s, a) && clause_sat_by(x, a)),
{
    if cnf_sat_by(s, a) && clause_sat_by(x, a) {
        assert forall|i: int| 0 <= i < s.push(x).len() implies
            clause_sat_by(#[trigger] s.push(x)[i], a) by {
            if i < s.len() {
                assert(s.push(x)[i] == s[i]);
            } else {
                assert(s.push(x)[i] == x);
            }
        }
    }
    if cnf_sat_by(s.push(x), a) {
        assert forall|i: int| 0 <= i < s.len() implies clause_sat_by(#[trigger] s[i], a) by {
            assert(s.push(x)[i] == s[i]);
            assert(clause_sat_by(s.push(x)[i], a));
        }
        assert(s.push(x)[s.len() as int] == x);
        assert(clause_sat_by(x, a));
    }
}

/// Dropping the assigned literals of a clause that no assigned literal
/// satisfies does not change its truth under any valuation that agrees
/// with the assignment.
pub(crate) proof fn lemma_keep_unassigned_holds(d: Seq<LitView>, a: Map<Seq<char>, bool>, v: Valuation)
    requires
        agrees_with(v, a),
        !clause_sat_by(d, a),
    ensures
        clause_holds(keep_unassigned(d, a), v) == clause_holds(d, v),
    decreases d.len(),
{
    if d.len() == 0 {
    } else {
        let rest = d.drop_last();
        let x = d.last();
        assert(d =~= rest.push(x));
        assert(!clause_sat_by(rest, a)) by {
            if clause_sat_by(rest, a) {
                let i = choose|i: int| 0 <= i < rest.len() && lit_sat_by(rest[i], a);
                assert(d[i] == rest[i]);
                assert(clause_sat_by(d, a));
            }
        }
        lemma_keep_unassigned_holds(rest, a, v);
        lemma_clause_holds_push(rest, x, v);
        assert(!lit_sat_by(x, a)) by {
            if lit_sat_by(x, a) {
                assert(d[d.len() - 1] == x);
                assert(clause_sat_by(d, a));
            }
        }
        if a.dom().contains(x.name) {
            assert(a[x.name] == x.negated);
            assert(v(x.name) == x.negated);
            assert(!lit_holds(x, v));
        } else {
            lemma_clause_holds_push(keep_unassigned(rest, a), x, v);
        }
    }
}

/// Simplification preserves the truth of the conjunction under every
/// valuation that agrees with the assignment it was simplified by.
pub(crate) proof fn lemma_simplify_cnf_holds(c: Seq<Seq<LitView>>, a: Map<Seq<char>, bool>, v: Valuation)
    requires
        agrees_with(v, a),
    ensures
        cnf_holds(simplify_cnf(c, a), v) == cnf_holds(c, v),
    decreases c.len(),
{
    if c.len() == 0 {
    } else {
        let rest = c.drop_last();
        let x = c.last();
        assert(c =~= rest.push(x));
        lemma_simplify_cnf_holds(rest, a, v);
        lemma_cnf_holds_push(rest, x, v);
        if clause_sat_by(x, a) {
            let i = choose|i: int| 0 <= i < x.len() && lit_sat_by(x[i], a);
            assert(lit_holds(x[i], v));
            assert(clause_holds(x, v));
        } else {
            lemma_keep_unassigned_holds(x, a, v);
            lemma_cnf_holds_push(simplify_cnf(rest, a), keep_unassigned(x, a), v);
        }
    }
}

/// A conjunction every clause of which the assignment already satisfies
/// holds under every valuation agreeing with the assignment.
pub(crate) proof fn lemma_sat_by_implies_holds(c: Seq<Seq<LitView>>, a: Map<Seq<char>, bool>, v: Valuation)
    requires
        cnf_sat_by(c, a),
        agrees_with(v, a),
    ensures
        cnf_holds(c, v),
{
    assert forall|i: int| 0 <= i < c.len() implies clause_holds(#[trigger] c[i], v) by {
        assert(clause_sat_by(c[i], a));
        let j = choose|j: int| 0 <= j < c[i].len() && lit_sat_by(c[i][j], a);
        assert(lit_holds(c[i][j], v));
    }
}

/// An assignment that already satisfies every clause is a witness:
/// the conjunction is satisfiable from it.
pub(crate) proof fn lemma_sat_by_satisfiable(c: Seq<Seq<LitView>>, a: Map<Seq<char>, bool>)
    requires
        cnf_sat_by(c, a),
    ensures
        satisfiable_from(c, a),
{
    let v: Valuation = |k: Seq<char>| if a.dom().contains(k) {
        a[k]
    } else {
        false
    };
    assert(agrees_with(v, a));
    lemma_sat_by_implies_holds(c, a, v);
    assert(satisfiable_from(c, a));
}

/// A valuation agreeing with the larger of two nested assignments agrees
/// with the smaller.
pub(crate) proof fn lemma_agrees_submap(v: Valuation, a: Map<Seq<char>, bool>, b: Map<Seq<char>, bool>)
    requires
        extends_map(b, a),
        agrees_with(v, b),
    ensures
        agrees_with(v, a),
{
    assert forall|k: Seq<char>| a.dom().contains(k) implies v(k) == a[k] by {
        assert(b.dom().contains(k) && b[k] == a[k]);
    }
}

/// Simplifying under an assignment changes nothing about satisfiability
/// from that assignment, or from any larger one.
pub(crate) proof fn lemma_simplify_satisfiable(
    c: Seq<Seq<LitView>>,
    a: Map<Seq<char>, bool>,
    b: Map<Seq<char>, bool>,
)
    requires
        extends_map(b, a),
    ensures
        satisfiable_from(simplify_cnf(c, a), b) == satisfiable_from(c, b),
{
    if satisfiable_from(simplify_cnf(c, a), b) {
        let v = choose|v: Valuation| agrees_with(v, b) && cnf_holds(simplify_cnf(c, a), v);
        lemma_agrees_submap(v, a, b);
        lemma_simplify_cnf_holds(c, a, v);
        assert(satisfiable_from(c, b));
    }
    if satisfiable_from(c, b) {
        let v = choose|v: Valuation| agrees_with(v, b) && cnf_holds(c, v);
        lemma_agrees_submap(v, a, b);
        lemma_simplify_cnf_holds(c, a, v);
        assert(satisfiable_from(simplify_cnf(c, a), b));
    }
}

/// When simplification leaves no clause at all, the assignment already
/// satisfied every clause of the original conjunction.
pub(crate) proof fn lemma_simplify_empty_sat(c: Seq<Seq<LitView>>, a: Map<Seq<char>, bool>)
    requires
        simplify_cnf(c, a).len() == 0,
    ensures
        cnf_sat_by(c, a),
    decreases c.len(),
{
    if c.len() == 0 {
    } else {
        let rest = c.drop_last();
        let x = c.last();
        assert(c =~= rest.push(x));
        if clause_sat_by(x, a) {
            lemma_simplify_empty_sat(rest, a);
            lemma_cnf_sat_by_push(rest, x, a);
        } else {
            assert(simplify_cnf(c, a).len() > 0);
        }
    }
}

/// When simplification leaves an empty clause, no valuation agreeing with
/// the assignment can make the conjunction true: it is unsatisfiable from
/// this assignment.
pub(crate) proof fn lemma_simplify_empty_clause_unsat(
    c: Seq<Seq<LitView>>,
    a: Map<Seq<char>, bool>,
    j: int,
)
    requires
        0 <= j < simplify_cnf(c, a).len(),
        simplify_cnf(c, a)[j].len() == 0,
    ensures
        !satisfiable_from(c, a),
{
    if satisfiable_from(c, a) {
        let v = choose|v: Valuation| agrees_with(v, a) && cnf_holds(c, v);
        lemma_simplify_cnf_holds(c, a, v);
        assert(clause_holds(simplify_cnf(c, a)[j], v));
    }
}

/// Every literal kept by simplification occurs in the original clause and
/// its variable is unassigned; conversely every unassigned literal is kept.
pub(crate) proof fn lemma_keep_unassigned_sub(d: Seq<LitView>, a: Map<Seq<char>, bool>)
    ensures
        forall|l: LitView| #[trigger] keep_unassigned(d, a).contains(l) ==>
            d.contains(l) && !a.dom().contains(l.name),
        forall|i: int| 0 <= i < d.len() && !a.dom().contains(d[i].name) ==>
            keep_unassigned(d, a).contains(#[trigger] d[i]),
    decreases d.len(),
{
    if d.len() == 0 {
    } else {
        let rest = d.drop_last();
        let x = d.last();
        lemma_keep_unassigned_sub(rest, a);
        let kept = keep_unassigned(d, a);
        let kept_rest = keep_unassigned(rest, a);
        assert forall|l: LitView| #[trigger] kept.contains(l) implies
            d.contains(l) && !a.dom().contains(l.name) by {
            if kept_rest.contains(l) {
                assert(rest.contains(l));
                let i = choose|i: int| 0 <= i < rest.len() && rest[i] == l;
                assert(d[i] == l);
                assert(d.contains(l));
            } else {
                assert(!a.dom().contains(x.name));
                assert(l == x);
                assert(d[d.len() - 1] == x);
                assert(d.contains(l));
            }
        }
        assert forall|i: int| 0 <= i < d.len() && !a.dom().contains(d[i].name) implies
            kept.contains(#[trigger] d[i]) by {
            if i < d.len() - 1 {
                assert(rest[i] == d[i]);
                assert(kept_rest.contains(rest[i]));
                let j = choose|j: int| 0 <= j < kept_rest.len() && kept_rest[j] == d[i];
                if a.dom().contains(x.name) {
                    assert(kept == kept_rest);
                } else {
                    assert(kept == kept_rest.push(x));
                    assert(kept[j] == d[i]);
                }
            } else {
                assert(d[i] == x);
                assert(kept == kept_rest.push(x));
                assert(kept[kept.len() - 1] == x);
            }
        }
    }
}

/// Satisfaction of the simplified conjunction by a larger assignment
/// carries back to the original conjunction.
pub(crate) proof fn lemma_simplify_sat_by_transfer(
    c: Seq<Seq<LitView>>,
    a: Map<Seq<char>, bool>,
    b: Map<Seq<char>, bool>,
)
    requires
        extends_map(b, a),
        cnf_sat_by(simplify_cnf(c, a), b),
    ensures
        cnf_sat_by(c, b),
    decreases c.len(),
{
    if c.len() == 0 {
    } else {
        let rest = c.drop_last();
        let x = c.last();
        assert(c =~= rest.push(x));
        if clause_sat_by(x, a) {
            let i = choose|i: int| 0 <= i < x.len() && lit_sat_by(x[i], a);
            assert(lit_sat_by(x[i], b));
            assert(clause_sat_by(x, b));
            lemma_simplify_sat_by_transfer(rest, a, b);
            lemma_cnf_sat_by_push(rest, x, b);
        } else {
            let sr = simplify_cnf(rest, a);
            let kx = keep_unassigned(x, a);
            assert(simplify_cnf(c, a) == sr.push(kx));
            lemma_cnf_sat_by_push(sr, kx, b);
            lemma_simplify_sat_by_transfer(rest, a, b);
            let i = choose|i: int| 0 <= i < kx.len() && lit_sat_by(kx[i], b);
            assert(kx.contains(kx[i]));
            lemma_keep_unassigned_sub(x, a);
            assert(x.contains(kx[i]));
            let j = choose|j: int| 0 <= j < x.len() && x[j] == kx[i];
            assert(lit_sat_by(x[j], b));
            assert(clause_sat_by(x, b));
            lemma_cnf_sat_by_push(rest, x, b);
        }
    }
}

/// Every variable of a simplified conjunction is a variable of the original
/// one that the assignment left open.
pub(crate) proof fn lemma_keep_unassigned_vars(d: Seq<LitView>, a: Map<Seq<char>, bool>)
    ensures
        forall|k: Seq<char>| #[trigger] clause_vars(keep_unassigned(d, a)).contains(k) ==>
            clause_vars(d).contains(k) && !a.dom().contains(k),
    decreases d.len(),
{
    if d.len() == 0 {
    } else {
        let rest = d.drop_last();
        let x = d.last();
        lemma_keep_unassigned_vars(rest, a);
        if a.dom().contains(x.name) {
            assert(keep_unassigned(d, a) == keep_unassigned(rest, a));
        } else {
            let kr = keep_unassigned(rest, a);
            assert(keep_unassigned(d, a) == kr.push(x));
            assert(kr.push(x).drop_last() =~= kr);
            assert(clause_vars(kr.push(x)) == clause_vars(kr).insert(x.name));
        }
    }
}

/// Membership in the variable set of a clause, from an index.
pub(crate) proof fn lemma_clause_vars_member(d: Seq<LitView>, i: int)
    requires
        0 <= i < d.len(),
    ensures
        clause_vars(d).contains(d[i].name),
    decreases d.len(),
{
    if i == d.len() - 1 {
        assert(d.last() == d[i]);
    } else {
        lemma_clause_vars_member(d.drop_last(), i);
        assert(d.drop_last()[i] == d[i]);
    }
}

/// Membership in the variable set of a conjunction, from a pair of indices.
pub(crate) proof fn lemma_cnf_vars_member(c: Seq<Seq<LitView>>, i: int, j: int)
    requires
        0 <= i < c.len(),
        0 <= j < c[i].len(),
    ensures
        cnf_vars(c).contains(c[i][j].name),
    decreases c.len(),
{
    if i == c.len() - 1 {
        assert(c.last() == c[i]);
        lemma_clause_vars_member(c[i], j);
    } else {
        lemma_cnf_vars_member(c.drop_last(), i, j);
        assert(c.drop_last()[i] == c[i]);
    }
}

/// The variable set of a clause contains only names of its literals.
pub(crate) proof fn lemma_clause_vars_origin(d: Seq<LitView>)
    ensures
        forall|k: Seq<char>| #[trigger] clause_vars(d).contains(k) ==>
            exists|i: int| 0 <= i < d.len() && d[i].name == k,
    decreases d.len(),
{
    if d.len() == 0 {
    } else {
        let rest = d.drop_last();
        lemma_clause_vars_origin(rest);
        assert forall|k: Seq<char>| #[trigger] clause_vars(d).contains(k) implies
            exists|i: int| 0 <= i < d.len() && d[i].name == k by {
            if clause_vars(rest).contains(k) {
                let i = choose|i: int| 0 <= i < rest.len() && rest[i].name == k;
                assert(d[i].name == k);
            } else {
                assert(d.last().name == k);
                assert(d[d.len() - 1].name == k);
            }
        }
    }
}

/// The variable set of a conjunction contains only names from its clauses.
pub(crate) proof fn lemma_cnf_vars_origin(c: Seq<Seq<LitView>>)
    ensures
        forall|k: Seq<char>| #[trigger] cnf_vars(c).contains(k) ==>
            exists|i: int, j: int| 0 <= i < c.len() && 0 <= j < c[i].len() && c[i][j].name == k,
    decreases c.len(),
{
    if c.len() == 0 {
    } else {
        let rest = c.drop_last();
        lemma_cnf_vars_origin(rest);
        lemma_clause_vars_origin(c.last());
        assert forall|k: Seq<char>| #[trigger] cnf_vars(c).contains(k) implies
            exists|i: int, j: int| 0 <= i < c.len() && 0 <= j < c[i].len() && c[i][j].name == k by {
            if cnf_vars(rest).contains(k) {
                let (i, j) = choose|i: int, j: int|
                    0 <= i < rest.len() && 0 <= j < rest[i].len() && rest[i][j].name == k;
                assert(c[i] == rest[i]);
                assert(c[i][j].name == k);
            } else {
                assert(clause_vars(c.last()).contains(k));
                let j = choose|j: int| 0 <= j < c.last().len() && c.last()[j].name == k;
                assert(c[c.len() - 1][j].name == k);
            }
        }
    }
}

/// Every variable of the simplified conjunction is an unassigned variable
/// of the original conjunction.
pub(crate) proof fn lemma_simplify_vars(c: Seq<Seq<LitView>>, a: Map<Seq<char>, bool>)
    ensures
        forall|k: Seq<char>| #[trigger] cnf_vars(simplify_cnf(c, a)).contains(k) ==>
            cnf_vars(c).contains(k) && !a.dom().contains(k),
    decreases c.len(),
{
    if c.len() == 0 {
    } else {
        let rest = c.drop_last();
        let x = c.last();
        lemma_simplify_vars(rest, a);
        assert forall|k: Seq<char>| #[trigger] cnf_vars(rest).contains(k) implies
            cnf_vars(c).contains(k) by {
            lemma_cnf_vars_origin(rest);
            let (i, j) = choose|i: int, j: int|
                0 <= i < rest.len() && 0 <= j < rest[i].len() && rest[i][j].name == k;
            assert(c[i] == rest[i]);
            lemma_cnf_vars_member(c, i, j);
        }
        if clause_sat_by(x, a) {
            assert(simplify_cnf(c, a) == simplify_cnf(rest, a));
        } else {
            let sr = simplify_cnf(rest, a);
            let kx = keep_unassigned(x, a);
            assert(simplify_cnf(c, a) == sr.push(kx));
            assert(sr.push(kx).drop_last() =~= sr);
            assert(cnf_vars(sr.push(kx)) == cnf_vars(sr).union(clause_vars(kx)));
            lemma_keep_unassigned_vars(x, a);
            assert forall|k: Seq<char>| #[trigger] clause_vars(kx).contains(k) implies
                cnf_vars(c).contains(k) && !a.dom().contains(k) by {
                assert(clause_vars(x).contains(k));
                lemma_clause_vars_origin(x);
                let j = choose|j: int| 0 <= j < x.len() && x[j].name == k;
                assert(c[c.len() - 1] == x);
                lemma_cnf_vars_member(c, c.len() - 1, j);
            }
        }
    }
}

/// The variable set of a clause is finite.
pub(crate) proof fn lemma_clause_vars_finite(d: Seq<LitView>)
    ensures
        clause_vars(d).finite(),
    decreases d.len(),
{
    if d.len() == 0 {
    } else {
        lemma_clause_vars_finite(d.drop_last());
    }
}

/// The variable set of a conjunction is finite.
pub(crate) proof fn lemma_cnf_vars_finite(c: Seq<Seq<LitView>>)
    ensures
        cnf_vars(c).finite(),
    decreases c.len(),
{
    if c.len() == 0 {
    } else {
        lemma_cnf_vars_finite(c.drop_last());
        lemma_clause_vars_finite(c.last());
    }
}

/// Keeping the unassigned literals twice is the same as keeping them once.
pub(crate) proof fn lemma_keep_unassigned_idempotent(d: Seq<LitView>, a: Map<Seq<char>, bool>)
    ensures
        keep_unassigned(keep_unassigned(d, a), a) == keep_unassigned(d, a),
    decreases d.len(),
{
    if d.len() == 0 {
        assert(keep_unassigned(keep_unassigned(d, a), a) =~= keep_unassigned(d, a));
    } else {
        let rest = d.drop_last();
        let x = d.last();
        lemma_keep_unassigned_idempotent(rest, a);
        if a.dom().contains(x.name) {
            assert(keep_unassigned(d, a) == keep_unassigned(rest, a));
        } else {
            let kr = keep_unassigned(rest, a);
            assert(keep_unassigned(d, a) == kr.push(x));
            assert(kr.push(x).drop_last() =~= kr);
            assert(keep_unassigned(kr.push(x), a) == keep_unassigned(kr, a).push(x));
        }
    }
}

/// No literal kept by simplification is satisfied by the assignment: its
/// variables are all unassigned.
pub(crate) proof fn lemma_keep_unassigned_not_sat(d: Seq<LitView>, a: Map<Seq<char>, bool>)
    ensures
        !clause_sat_by(keep_unassigned(d, a), a),
{
    lemma_keep_unassigned_sub(d, a);
    let kd = keep_unassigned(d, a);
    if clause_sat_by(kd, a) {
        let i = choose|i: int| 0 <= i < kd.len() && lit_sat_by(kd[i], a);
        assert(kd.contains(kd[i]));
        assert(!a.dom().contains(kd[i].name));
    }
}

/// Simplifying a conjunction twice under one assignment gives the same
/// result as simplifying it once: simplification is idempotent. In
/// particular, once every variable is assigned, repeated simplification
/// can no longer change the triviality verdict.
pub proof fn lemma_simplify_idempotent(c: Seq<Seq<LitView>>, a: Map<Seq<char>, bool>)
    ensures
        simplify_cnf(simplify_cnf(c, a), a) == simplify_cnf(c, a),
    decreases c.len(),
{
    if c.len() == 0 {
        assert(simplify_cnf(simplify_cnf(c, a), a) =~= simplify_cnf(c, a));
    } else {
        let rest = c.drop_last();
        let x = c.last();
        lemma_simplify_idempotent(rest, a);
        if clause_sat_by(x, a) {
            assert(simplify_cnf(c, a) == simplify_cnf(rest, a));
        } else {
            let sr = simplify_cnf(rest, a);
            let kx = keep_unassigned(x, a);
            assert(simplify_cnf(c, a) == sr.push(kx));
            assert(sr.push(kx).drop_last() =~= sr);
            lemma_keep_unassigned_not_sat(x, a);
            lemma_keep_unassigned_idempotent(x, a);
            assert(simplify_cnf(sr.push(kx), a) == simplify_cnf(sr, a).push(keep_unassigned(kx, a)));
        }
    }
}

/// Under an assignment that covers every variable of the conjunction,
/// each clause simplification keeps is empty: the simplified conjunction
/// is either trivially true or trivially false, and that verdict is final.
pub proof fn lemma_simplify_full_assignment(c: Seq<Seq<LitView>>, a: Map<Seq<char>, bool>)
    requires
        forall|k: Seq<char>| #[trigger] cnf_vars(c).contains(k) ==> a.dom().contains(k),
    ensures
        forall|j: int| 0 <= j < simplify_cnf(c, a).len() ==>
            #[trigger] simplify_cnf(c, a)[j].len() == 0,
{
    lemma_simplify_vars(c, a);
    let s = simplify_cnf(c, a);
    assert forall|j: int| 0 <= j < s.len() implies #[trigger] s[j].len() == 0 by {
        if s[j].len() > 0 {
            lemma_cnf_vars_member(s, j, 0);
            assert(cnf_vars(s).contains(s[j][0].name));
        }
    }
}

} // verus!
