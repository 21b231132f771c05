//! Proofs about the Tseytin transformation: the emitted clause set is
//! linear in the number of non-leaf nodes, every valuation satisfying the
//! clauses values each gate exactly as the subformula it stands for, and
//! every valuation of the formula extends to one satisfying the clauses.
//! Together these make the encoding equisatisfiable with the formula once
//! the root gate is asserted.

use vstd::prelude::*;

use crate::cnf::{
    agrees_with, clause_holds, clause_vars, cnf_holds, cnf_sat_by, cnf_vars, lit_holds,
    satisfiable_from, LitView, Valuation,
};
use crate::formula::{
    clauses_of_pair, clauses_of_pairs, feval, formula_satisfiable, fsize, lv, nontrivial_count,
    root_name, spec_cnf, spec_reduce, vars_unprefixed, Formula, GateShape,
};
use crate::names::{gate_name, has_gate_prefix, lemma_gate_name_injective, lemma_gate_name_prefix};
use crate::semantics::{
    lemma_cnf_holds_push, lemma_cnf_vars_member, lemma_cnf_vars_origin, lemma_sat_by_implies_holds,
};

verus! {

/// The clauses of a concatenation of gate definition lists are the
/// concatenation of their clauses.
proof fn lemma_clauses_of_pairs_add(s1: Seq<(Seq<char>, GateShape)>, s2: Seq<(Seq<char>, GateShape)>)
    ensures
        clauses_of_pairs(s1 + s2) == clauses_of_pairs(s1) + clauses_of_pairs(s2),
    decreases s2.len(),
{
    if s2.len() == 0 {
        assert(s1 + s2 =~= s1);
        assert(clauses_of_pairs(s2) =~= Seq::empty());
        assert(clauses_of_pairs(s1) + clauses_of_pairs(s2) =~= clauses_of_pairs(s1));
    } else {
        assert((s1 + s2).drop_last() =~= s1 + s2.drop_last());
        assert((s1 + s2).last() == s2.last());
        lemma_clauses_of_pairs_add(s1, s2.drop_last());
        assert(clauses_of_pairs(s1) + clauses_of_pairs(s2.drop_last())
            + clauses_of_pair(s2.last().0, s2.last().1)
            =~= clauses_of_pairs(s1) + clauses_of_pairs(s2));
    }
}

/// The clauses of a single gate definition.
proof fn lemma_clauses_of_pairs_single(p: (Seq<char>, GateShape))
    ensures
        clauses_of_pairs(seq![p]) == clauses_of_pair(p.0, p.1),
{
    assert(seq![p].drop_last() =~= Seq::<(Seq<char>, GateShape)>::empty());
    assert(seq![p].last() == p);
    assert(clauses_of_pairs(Seq::<(Seq<char>, GateShape)>::empty())
        == Seq::<Seq<LitView>>::empty());
    assert(Seq::<Seq<LitView>>::empty() + clauses_of_pair(p.0, p.1)
        =~= clauses_of_pair(p.0, p.1));
}

/// A concatenation of conjunctions holds exactly when both parts hold.
proof fn lemma_cnf_holds_add(s1: Seq<Seq<LitView>>, s2: Seq<Seq<LitView>>, v: Valuation)
    ensures
        cnf_holds(s1 + s2, v) == (cnf_holds(s1, v) && cnf_holds(s2, v)),
{
    if cnf_holds(s1, v) && cnf_holds(s2, v) {
        assert forall|i: int| 0 <= i < (s1 + s2).len() implies
            clause_holds(#[trigger] (s1 + s2)[i], v) by {
            if i < s1.len() {
                assert((s1 + s2)[i] == s1[i]);
            } else {
                assert((s1 + s2)[i] == s2[i - s1.len()]);
            }
        }
    }
    if cnf_holds(s1 + s2, v) {
        assert forall|i: int| 0 <= i < s1.len() implies clause_holds(#[trigger] s1[i], v) by {
            assert((s1 + s2)[i] == s1[i]);
            assert(clause_holds((s1 + s2)[i], v));
        }
        assert forall|i: int| 0 <= i < s2.len() implies clause_holds(#[trigger] s2[i], v) by {
            assert((s1 + s2)[i + s1.len()] == s2[i]);
            assert(clause_holds((s1 + s2)[i + s1.len()], v));
        }
    }
}

/// A one-literal clause holds exactly when its literal does.
proof fn lemma_clause_lits1(a: LitView, v: Valuation)
    ensures
        clause_holds(seq![a], v) == lit_holds(a, v),
{
    if lit_holds(a, v) {
        assert(seq![a][0] == a);
        assert(clause_holds(seq![a], v));
    }
    if clause_holds(seq![a], v) {
        let i = choose|i: int| 0 <= i < seq![a].len() && lit_holds(seq![a][i], v);
        assert(seq![a][i] == a);
    }
}

/// A two-literal clause holds exactly when one of its literals does.
proof fn lemma_clause_lits2(a: LitView, b: LitView, v: Valuation)
    ensures
        clause_holds(seq![a, b], v) == (lit_holds(a, v) || lit_holds(b, v)),
{
    let s = seq![a, b];
    if lit_holds(a, v) {
        assert(s[0] == a);
        assert(clause_holds(s, v));
    }
    if lit_holds(b, v) {
        assert(s[1] == b);
        assert(clause_holds(s, v));
    }
    if clause_holds(s, v) {
        let i = choose|i: int| 0 <= i < s.len() && lit_holds(s[i], v);
        assert(i == 0 || i == 1);
    }
}

/// A three-literal clause holds exactly when one of its literals does.
proof fn lemma_clause_lits3(a: LitView, b: LitView, c: LitView, v: Valuation)
    ensures
        clause_holds(seq![a, b, c], v) == (lit_holds(a, v) || lit_holds(b, v) || lit_holds(c, v)),
{
    let s = seq![a, b, c];
    if lit_holds(a, v) {
        assert(s[0] == a);
        assert(clause_holds(s, v));
    }
    if lit_holds(b, v) {
        assert(s[1] == b);
        assert(clause_holds(s, v));
    }
    if lit_holds(c, v) {
        assert(s[2] == c);
        assert(clause_holds(s, v));
    }
    if clause_holds(s, v) {
        let i = choose|i: int| 0 <= i < s.len() && lit_holds(s[i], v);
        assert(i == 0 || i == 1 || i == 2);
    }
}

/// The clause count of the encoding, rooted anywhere, is linear in the
/// number of non-leaf nodes.
proof fn lemma_encoding_size(f: Formula, idx: nat)
    ensures
        clauses_of_pairs(spec_reduce(f, idx)).len() <= 4 * nontrivial_count(f) + 1,
    decreases f,
{
    match f {
        Formula::And(l, r) => {
            let head = (
                gate_name(idx),
                GateShape::And(root_name(*l, idx + 1), root_name(*r, idx + 1 + fsize(*l))),
            );
            lemma_clauses_of_pairs_single(head);
            lemma_clauses_of_pairs_add(seq![head], spec_reduce(*l, idx + 1));
            lemma_clauses_of_pairs_add(
                seq![head] + spec_reduce(*l, idx + 1),
                spec_reduce(*r, idx + 1 + fsize(*l)),
            );
            lemma_encoding_size(*l, idx + 1);
            lemma_encoding_size(*r, idx + 1 + fsize(*l));
        },
        Formula::Or(l, r) => {
            let head = (
                gate_name(idx),
                GateShape::Or(root_name(*l, idx + 1), root_name(*r, idx + 1 + fsize(*l))),
            );
            lemma_clauses_of_pairs_single(head);
            lemma_clauses_of_pairs_add(seq![head], spec_reduce(*l, idx + 1));
            lemma_clauses_of_pairs_add(
                seq![head] + spec_reduce(*l, idx + 1),
                spec_reduce(*r, idx + 1 + fsize(*l)),
            );
            lemma_encoding_size(*l, idx + 1);
            lemma_encoding_size(*r, idx + 1 + fsize(*l));
        },
        Formula::Not(s) => {
            let head = (gate_name(idx), GateShape::Not(root_name(*s, idx + 1)));
            lemma_clauses_of_pairs_single(head);
            lemma_clauses_of_pairs_add(seq![head], spec_reduce(*s, idx + 1));
            lemma_encoding_size(*s, idx + 1);
        },
        Formula::Var(n) => {
            lemma_clauses_of_pairs_single((n@, GateShape::Var(n@)));
        },
        Formula::Constant(b) => {
            lemma_clauses_of_pairs_single((gate_name(idx), GateShape::Const(b)));
        },
    }
}

/// The number of clauses the encoder produces grows linearly in the
/// number of non-leaf subformulas, never exponentially: at most four
/// clauses per non-leaf node, plus one for a constant leaf.
pub proof fn lemma_cnf_size_linear(f: Formula)
    ensures
        spec_cnf(f).len() <= 4 * nontrivial_count(f) + 1,
{
    lemma_encoding_size(f, 0);
}

/// Every valuation satisfying the emitted clauses values each node's gate
/// node exactly as the formula under that node evaluates: the soundness
/// half of the encoding's correctness.
proof fn lemma_encoding_sound(f: Formula, idx: nat, v: Valuation)
    requires
        cnf_holds(clauses_of_pairs(spec_reduce(f, idx)), v),
    ensures
        v(root_name(f, idx)) == feval(f, v),
    decreases f,
{
    let g = gate_name(idx);
    match f {
        Formula::Var(_) => {},
        Formula::Constant(b) => {
            let head = (g, GateShape::Const(b));
            lemma_clauses_of_pairs_single(head);
            assert(clauses_of_pairs(spec_reduce(f, idx)) == seq![seq![lv(g, !b)]]);
            assert(seq![seq![lv(g, !b)]][0] == seq![lv(g, !b)]);
            assert(clause_holds(seq![lv(g, !b)], v));
            lemma_clause_lits1(lv(g, !b), v);
        },
        Formula::Not(s) => {
            let y = root_name(*s, idx + 1);
            let head = (g, GateShape::Not(y));
            lemma_clauses_of_pairs_single(head);
            lemma_clauses_of_pairs_add(seq![head], spec_reduce(*s, idx + 1));
            lemma_cnf_holds_add(clauses_of_pair(g, head.1), clauses_of_pairs(spec_reduce(*s, idx + 1)), v);
            lemma_encoding_sound(*s, idx + 1, v);
            assert(clause_holds(seq![lv(g, true), lv(y, true)], v)) by {
                assert(clauses_of_pair(g, head.1)[0] == seq![lv(g, true), lv(y, true)]);
            }
            assert(clause_holds(seq![lv(g, false), lv(y, false)], v)) by {
                assert(clauses_of_pair(g, head.1)[1] == seq![lv(g, false), lv(y, false)]);
            }
            lemma_clause_lits2(lv(g, true), lv(y, true), v);
            lemma_clause_lits2(lv(g, false), lv(y, false), v);
        },
        Formula::And(l, r) => {
            let ln = root_name(*l, idx + 1);
            let rn = root_name(*r, idx + 1 + fsize(*l));
            let head = (g, GateShape::And(ln, rn));
            let cl = spec_reduce(*l, idx + 1);
            let cr = spec_reduce(*r, idx + 1 + fsize(*l));
            lemma_clauses_of_pairs_single(head);
            lemma_clauses_of_pairs_add(seq![head], cl);
            lemma_clauses_of_pairs_add(seq![head] + cl, cr);
            lemma_cnf_holds_add(clauses_of_pairs(seq![head] + cl), clauses_of_pairs(cr), v);
            lemma_cnf_holds_add(clauses_of_pair(g, head.1), clauses_of_pairs(cl), v);
            lemma_encoding_sound(*l, idx + 1, v);
            lemma_encoding_sound(*r, idx + 1 + fsize(*l), v);
            assert(clause_holds(seq![lv(g, true), lv(ln, false)], v)) by {
                assert(clauses_of_pair(g, head.1)[0] == seq![lv(g, true), lv(ln, false)]);
            }
            assert(clause_holds(seq![lv(g, true), lv(rn, false)], v)) by {
                assert(clauses_of_pair(g, head.1)[1] == seq![lv(g, true), lv(rn, false)]);
            }
            assert(clause_holds(seq![lv(g, false), lv(ln, true), lv(rn, true)], v)) by {
                assert(clauses_of_pair(g, head.1)[2] == seq![lv(g, false), lv(ln, true), lv(rn, true)]);
            }
            lemma_clause_lits2(lv(g, true), lv(ln, false), v);
            lemma_clause_lits2(lv(g, true), lv(rn, false), v);
            lemma_clause_lits3(lv(g, false), lv(ln, true), lv(rn, true), v);
        },
        Formula::Or(l, r) => {
            let ln = root_name(*l, idx + 1);
            let rn = root_name(*r, idx + 1 + fsize(*l));
            let head = (g, GateShape::Or(ln, rn));
            let cl = spec_reduce(*l, idx + 1);
            let cr = spec_reduce(*r, idx + 1 + fsize(*l));
            lemma_clauses_of_pairs_single(head);
            lemma_clauses_of_pairs_add(seq![head], cl);
            lemma_clauses_of_pairs_add(seq![head] + cl, cr);
            lemma_cnf_holds_add(clauses_of_pairs(seq![head] + cl), clauses_of_pairs(cr), v);
            lemma_cnf_holds_add(clauses_of_pair(g, head.1), clauses_of_pairs(cl), v);
            lemma_encoding_sound(*l, idx + 1, v);
            lemma_encoding_sound(*r, idx + 1 + fsize(*l), v);
            assert(clause_holds(seq![lv(g, false), lv(ln, true)], v)) by {
                assert(clauses_of_pair(g, head.1)[0] == seq![lv(g, false), lv(ln, true)]);
            }
            assert(clause_holds(seq![lv(g, false), lv(rn, true)], v)) by {
                assert(clauses_of_pair(g, head.1)[1] == seq![lv(g, false), lv(rn, true)]);
            }
            assert(clause_holds(seq![lv(g, true), lv(ln, false), lv(rn, false)], v)) by {
                assert(clauses_of_pair(g, head.1)[2] == seq![lv(g, true), lv(ln, false), lv(rn, false)]);
            }
            lemma_clause_lits2(lv(g, false), lv(ln, true), v);
            lemma_clause_lits2(lv(g, false), lv(rn, true), v);
            lemma_clause_lits3(lv(g, true), lv(ln, false), lv(rn, false), v);
        },
    }
}

/// Whether a name is a gate name with index in `[lo, hi)`.
pub open spec fn in_gate_range(k: Seq<char>, lo: nat, hi: nat) -> bool {
    exists|j: nat| lo <= j < hi && k == gate_name(j)
}

/// A valuation changed at exactly one name.
pub open spec fn override_val(v: Valuation, k: Seq<char>, b: bool) -> Valuation {
    |x: Seq<char>| if x == k {
        b
    } else {
        v(x)
    }
}

/// The valuation that extends a given one with the truth value of every
/// subformula at that subformula's gate: the witness construction for the
/// completeness half of the encoding's correctness.
pub open spec fn gate_extension(f: Formula, idx: nat, v: Valuation) -> Valuation
    decreases f,
{
    match f {
        Formula::Var(_) => v,
        Formula::Constant(b) => override_val(v, gate_name(idx), b),
        Formula::Not(s) => override_val(
            gate_extension(*s, idx + 1, v),
            gate_name(idx),
            !feval(*s, v),
        ),
        Formula::And(l, r) => override_val(
            gate_extension(*r, idx + 1 + fsize(*l), gate_extension(*l, idx + 1, v)),
            gate_name(idx),
            feval(*l, v) && feval(*r, v),
        ),
        Formula::Or(l, r) => override_val(
            gate_extension(*r, idx + 1 + fsize(*l), gate_extension(*l, idx + 1, v)),
            gate_name(idx),
            feval(*l, v) || feval(*r, v),
        ),
    }
}

/// Every formula tree has at least one node.
proof fn lemma_fsize_pos(f: Formula)
    ensures
        fsize(f) >= 1,
{
}

/// A gate range grows when its bounds widen.
proof fn lemma_in_gate_range_widen(k: Seq<char>, lo1: nat, hi1: nat, lo2: nat, hi2: nat)
    requires
        in_gate_range(k, lo1, hi1),
        lo2 <= lo1,
        hi1 <= hi2,
    ensures
        in_gate_range(k, lo2, hi2),
{
    let j = choose|j: nat| lo1 <= j < hi1 && k == gate_name(j);
    assert(lo2 <= j < hi2 && k == gate_name(j));
}

/// A gate name lies outside a range exactly when its index does.
proof fn lemma_gate_name_range(i: nat, lo: nat, hi: nat)
    ensures
        in_gate_range(gate_name(i), lo, hi) == (lo <= i < hi),
{
    if lo <= i < hi {
        assert(in_gate_range(gate_name(i), lo, hi));
    }
    if in_gate_range(gate_name(i), lo, hi) {
        let j = choose|j: nat| lo <= j < hi && gate_name(i) == gate_name(j);
        lemma_gate_name_injective(i, j);
    }
}

/// A name with the reserved prefix is never a user variable name, and a
/// name without it is never a gate name.
proof fn lemma_unprefixed_not_in_range(k: Seq<char>, lo: nat, hi: nat)
    requires
        !has_gate_prefix(k),
    ensures
        !in_gate_range(k, lo, hi),
{
    if in_gate_range(k, lo, hi) {
        let j = choose|j: nat| lo <= j < hi && k == gate_name(j);
        lemma_gate_name_prefix(j);
    }
}

/// Every name the emitted clauses mention is either a user variable name
/// (without the reserved prefix) or a gate of the encoding's own index
/// range.
proof fn lemma_encoding_mentions(f: Formula, idx: nat)
    requires
        vars_unprefixed(f),
    ensures
        forall|k: Seq<char>| #[trigger] cnf_vars(clauses_of_pairs(spec_reduce(f, idx))).contains(k)
            ==> !has_gate_prefix(k) || in_gate_range(k, idx, idx + fsize(f)),
    decreases f, 1nat,
{
    let g = gate_name(idx);
    let cs = clauses_of_pairs(spec_reduce(f, idx));
    lemma_cnf_vars_origin(cs);
    match f {
        Formula::Var(n) => {
            lemma_clauses_of_pairs_single((n@, GateShape::Var(n@)));
            assert forall|k: Seq<char>| #[trigger] cnf_vars(cs).contains(k) implies
                !has_gate_prefix(k) || in_gate_range(k, idx, idx + fsize(f)) by {
                let (i, j) = choose|i: int, j: int|
                    0 <= i < cs.len() && 0 <= j < cs[i].len() && cs[i][j].name == k;
            }
        },
        Formula::Constant(b) => {
            lemma_clauses_of_pairs_single((g, GateShape::Const(b)));
            lemma_fsize_pos(f);
            assert forall|k: Seq<char>| #[trigger] cnf_vars(cs).contains(k) implies
                !has_gate_prefix(k) || in_gate_range(k, idx, idx + fsize(f)) by {
                let (i, j) = choose|i: int, j: int|
                    0 <= i < cs.len() && 0 <= j < cs[i].len() && cs[i][j].name == k;
                assert(k == g);
                assert(idx <= idx < idx + fsize(f) && k == gate_name(idx));
            }
        },
        Formula::Not(s) => {
            let y = root_name(*s, idx + 1);
            let head = (g, GateShape::Not(y));
            let sub = clauses_of_pairs(spec_reduce(*s, idx + 1));
            lemma_clauses_of_pairs_single(head);
            lemma_clauses_of_pairs_add(seq![head], spec_reduce(*s, idx + 1));
            lemma_encoding_mentions(*s, idx + 1);
            lemma_cnf_vars_add(clauses_of_pair(g, head.1), sub);
            lemma_cnf_vars_origin(clauses_of_pair(g, head.1));
            assert forall|k: Seq<char>| #[trigger] cnf_vars(cs).contains(k) implies
                !has_gate_prefix(k) || in_gate_range(k, idx, idx + fsize(f)) by {
                if cnf_vars(clauses_of_pair(g, head.1)).contains(k) {
                    let (i, j) = choose|i: int, j: int|
                        0 <= i < clauses_of_pair(g, head.1).len()
                        && 0 <= j < clauses_of_pair(g, head.1)[i].len()
                        && clauses_of_pair(g, head.1)[i][j].name == k;
                    assert(k == g || k == y);
                    assert(vars_unprefixed(*s));
                    lemma_fsize_pos(*s);
                    assert(fsize(f) == 1 + fsize(*s));
                    if k == g {
                        assert(idx <= idx < idx + fsize(f) && k == gate_name(idx));
                    } else {
                        match *s {
                            Formula::Var(n2) => {
                                assert(!has_gate_prefix(n2@));
                                assert(k == n2@);
                            },
                            _ => {
                                assert(k == gate_name(idx + 1));
                                assert(idx <= idx + 1 < idx + fsize(f) && k == gate_name(idx + 1));
                            },
                        }
                    }
                } else {
                    assert(cnf_vars(sub).contains(k));
                    if has_gate_prefix(k) {
                        lemma_in_gate_range_widen(k, idx + 1, idx + 1 + fsize(*s), idx, idx + fsize(f));
                    }
                }
            }
        },
        Formula::And(l, r) => {
            lemma_encoding_mentions_binary(f, *l, *r, idx);
        },
        Formula::Or(l, r) => {
            lemma_encoding_mentions_binary(f, *l, *r, idx);
        },
    }
}

/// The binary cases of the mentions argument: conjunction and disjunction
/// nodes share it.
proof fn lemma_encoding_mentions_binary(f: Formula, l: Formula, r: Formula, idx: nat)
    requires
        vars_unprefixed(f),
        match f {
            Formula::And(l2, r2) => *l2 == l && *r2 == r,
            Formula::Or(l2, r2) => *l2 == l && *r2 == r,
            _ => false,
        },
    ensures
        forall|k: Seq<char>| #[trigger] cnf_vars(clauses_of_pairs(spec_reduce(f, idx))).contains(k)
            ==> !has_gate_prefix(k) || in_gate_range(k, idx, idx + fsize(f)),
    decreases f, 0nat,
{
    let g = gate_name(idx);
    let ln = root_name(l, idx + 1);
    let rn = root_name(r, idx + 1 + fsize(l));
    let shape = if f is And {
        GateShape::And(ln, rn)
    } else {
        GateShape::Or(ln, rn)
    };
    let head = (g, shape);
    let cs = clauses_of_pairs(spec_reduce(f, idx));
    let cl = clauses_of_pairs(spec_reduce(l, idx + 1));
    let cr = clauses_of_pairs(spec_reduce(r, idx + 1 + fsize(l)));
    assert(spec_reduce(f, idx) == seq![head] + spec_reduce(l, idx + 1)
        + spec_reduce(r, idx + 1 + fsize(l)));
    lemma_clauses_of_pairs_single(head);
    lemma_clauses_of_pairs_add(seq![head], spec_reduce(l, idx + 1));
    lemma_clauses_of_pairs_add(seq![head] + spec_reduce(l, idx + 1), spec_reduce(r, idx + 1 + fsize(l)));
    assert(vars_unprefixed(l) && vars_unprefixed(r));
    assert(fsize(f) == 1 + fsize(l) + fsize(r));
    lemma_encoding_mentions(l, idx + 1);
    lemma_encoding_mentions(r, idx + 1 + fsize(l));
    lemma_cnf_vars_add(clauses_of_pair(g, shape) + cl, cr);
    lemma_cnf_vars_add(clauses_of_pair(g, shape), cl);
    lemma_cnf_vars_origin(clauses_of_pair(g, shape));
    lemma_fsize_pos(l);
    lemma_fsize_pos(r);
    assert forall|k: Seq<char>| #[trigger] cnf_vars(cs).contains(k) implies
        !has_gate_prefix(k) || in_gate_range(k, idx, idx + fsize(f)) by {
        if cnf_vars(clauses_of_pair(g, shape)).contains(k) {
            let (i, j) = choose|i: int, j: int|
                0 <= i < clauses_of_pair(g, shape).len()
                && 0 <= j < clauses_of_pair(g, shape)[i].len()
                && clauses_of_pair(g, shape)[i][j].name == k;
            assert(k == g || k == ln || k == rn);
            if k == g {
                assert(idx <= idx < idx + fsize(f) && k == gate_name(idx));
            } else if k == ln {
                match l {
                    Formula::Var(n2) => {
                        assert(!has_gate_prefix(n2@));
                        assert(k == n2@);
                    },
                    _ => {
                        assert(k == gate_name(idx + 1));
                        assert(idx <= idx + 1 < idx + fsize(f) && k == gate_name(idx + 1));
                    },
                }
            } else {
                match r {
                    Formula::Var(n2) => {
                        assert(!has_gate_prefix(n2@));
                        assert(k == n2@);
                    },
                    _ => {
                        assert(k == gate_name(idx + 1 + fsize(l)));
                        assert(idx <= idx + 1 + fsize(l) < idx + fsize(f)
                            && k == gate_name(idx + 1 + fsize(l)));
                    },
                }
            }
        } else if cnf_vars(cl).contains(k) {
            if has_gate_prefix(k) {
                lemma_in_gate_range_widen(k, idx + 1, idx + 1 + fsize(l), idx, idx + fsize(f));
            }
        } else {
            assert(cnf_vars(cr).contains(k));
            if has_gate_prefix(k) {
                lemma_in_gate_range_widen(
                    k,
                    idx + 1 + fsize(l),
                    idx + 1 + fsize(l) + fsize(r),
                    idx,
                    idx + fsize(f),
                );
            }
        }
    }
}

/// The variable set of a concatenation of conjunctions is the union of
/// the variable sets.
proof fn lemma_cnf_vars_add(c1: Seq<Seq<LitView>>, c2: Seq<Seq<LitView>>)
    ensures
        cnf_vars(c1 + c2) == cnf_vars(c1).union(cnf_vars(c2)),
    decreases c2.len(),
{
    if c2.len() == 0 {
        assert(c1 + c2 =~= c1);
        assert(cnf_vars(c2) =~= Set::<Seq<char>>::empty());
        assert(cnf_vars(c1).union(cnf_vars(c2)) =~= cnf_vars(c1));
    } else {
        assert((c1 + c2).drop_last() =~= c1 + c2.drop_last());
        assert((c1 + c2).last() == c2.last());
        lemma_cnf_vars_add(c1, c2.drop_last());
        assert(cnf_vars(c1).union(cnf_vars(c2.drop_last())).union(clause_vars(c2.last()))
            =~= cnf_vars(c1).union(cnf_vars(c2)));
    }
}

/// Two valuations that agree on every variable a formula mentions give
/// the formula the same truth value; gate names are never mentioned by a
/// formula whose variables lack the reserved prefix.
proof fn lemma_feval_congruence(f: Formula, v1: Valuation, v2: Valuation)
    requires
        vars_unprefixed(f),
        forall|k: Seq<char>| !has_gate_prefix(k) ==> #[trigger] v1(k) == v2(k),
    ensures
        feval(f, v1) == feval(f, v2),
    decreases f,
{
    match f {
        Formula::And(l, r) => {
            lemma_feval_congruence(*l, v1, v2);
            lemma_feval_congruence(*r, v1, v2);
        },
        Formula::Or(l, r) => {
            lemma_feval_congruence(*l, v1, v2);
            lemma_feval_congruence(*r, v1, v2);
        },
        Formula::Not(s) => {
            lemma_feval_congruence(*s, v1, v2);
        },
        Formula::Var(n) => {
            assert(v1(n@) == v2(n@));
        },
        Formula::Constant(_) => {},
    }
}

/// Two valuations that agree on every variable a conjunction mentions
/// satisfy exactly the same clauses of it.
proof fn lemma_cnf_holds_congruence(c: Seq<Seq<LitView>>, v1: Valuation, v2: Valuation)
    requires
        forall|k: Seq<char>| cnf_vars(c).contains(k) ==> #[trigger] v1(k) == v2(k),
    ensures
        cnf_holds(c, v1) == cnf_holds(c, v2),
{
    if cnf_holds(c, v1) {
        assert forall|i: int| 0 <= i < c.len() implies clause_holds(#[trigger] c[i], v2) by {
            assert(clause_holds(c[i], v1));
            let j = choose|j: int| 0 <= j < c[i].len() && lit_holds(c[i][j], v1);
            lemma_cnf_vars_member(c, i, j);
            assert(v1(c[i][j].name) == v2(c[i][j].name));
        }
    }
    if cnf_holds(c, v2) {
        assert forall|i: int| 0 <= i < c.len() implies clause_holds(#[trigger] c[i], v1) by {
            assert(clause_holds(c[i], v2));
            let j = choose|j: int| 0 <= j < c[i].len() && lit_holds(c[i][j], v2);
            lemma_cnf_vars_member(c, i, j);
            assert(v1(c[i][j].name) == v2(c[i][j].name));
        }
    }
}

/// A gate extension changes a valuation only at gates of its own
/// index range.
proof fn lemma_gate_extension_agrees(f: Formula, idx: nat, v: Valuation)
    ensures
        forall|k: Seq<char>| !in_gate_range(k, idx, idx + fsize(f)) ==>
            #[trigger] gate_extension(f, idx, v)(k) == v(k),
    decreases f, 1nat,
{
    let ge = gate_extension(f, idx, v);
    lemma_fsize_pos(f);
    match f {
        Formula::Var(_) => {},
        Formula::Constant(_) => {
            assert forall|k: Seq<char>| !in_gate_range(k, idx, idx + fsize(f)) implies
                #[trigger] ge(k) == v(k) by {
                lemma_gate_name_range(idx, idx, idx + fsize(f));
                assert(k != gate_name(idx));
            }
        },
        Formula::Not(s) => {
            lemma_gate_extension_agrees(*s, idx + 1, v);
            assert forall|k: Seq<char>| !in_gate_range(k, idx, idx + fsize(f)) implies
                #[trigger] ge(k) == v(k) by {
                lemma_gate_name_range(idx, idx, idx + fsize(f));
                assert(k != gate_name(idx));
                if in_gate_range(k, idx + 1, idx + 1 + fsize(*s)) {
                    lemma_in_gate_range_widen(k, idx + 1, idx + 1 + fsize(*s), idx, idx + fsize(f));
                }
                assert(gate_extension(*s, idx + 1, v)(k) == v(k));
            }
        },
        Formula::And(l, r) => {
            lemma_gate_extension_agrees_binary(f, *l, *r, idx, v);
        },
        Formula::Or(l, r) => {
            lemma_gate_extension_agrees_binary(f, *l, *r, idx, v);
        },
    }
}

/// The binary cases of the agreement argument.
proof fn lemma_gate_extension_agrees_binary(f: Formula, l: Formula, r: Formula, idx: nat, v: Valuation)
    requires
        match f {
            Formula::And(l2, r2) => *l2 == l && *r2 == r,
            Formula::Or(l2, r2) => *l2 == l && *r2 == r,
            _ => false,
        },
    ensures
        forall|k: Seq<char>| !in_gate_range(k, idx, idx + fsize(f)) ==>
            #[trigger] gate_extension(f, idx, v)(k) == v(k),
    decreases f, 0nat,
{
    let ge = gate_extension(f, idx, v);
    let gl = gate_extension(l, idx + 1, v);
    let gr = gate_extension(r, idx + 1 + fsize(l), gl);
    lemma_fsize_pos(f);
    lemma_gate_extension_agrees(l, idx + 1, v);
    lemma_gate_extension_agrees(r, idx + 1 + fsize(l), gl);
    assert forall|k: Seq<char>| !in_gate_range(k, idx, idx + fsize(f)) implies
        #[trigger] ge(k) == v(k) by {
        lemma_gate_name_range(idx, idx, idx + fsize(f));
        assert(k != gate_name(idx));
        if in_gate_range(k, idx + 1, idx + 1 + fsize(l)) {
            lemma_in_gate_range_widen(k, idx + 1, idx + 1 + fsize(l), idx, idx + fsize(f));
        }
        if in_gate_range(k, idx + 1 + fsize(l), idx + 1 + fsize(l) + fsize(r)) {
            lemma_in_gate_range_widen(
                k,
                idx + 1 + fsize(l),
                idx + 1 + fsize(l) + fsize(r),
                idx,
                idx + fsize(f),
            );
        }
        assert(gr(k) == gl(k));
        assert(gl(k) == v(k));
        assert(ge(k) == gr(k));
    }
}

/// Every valuation of the formula extends, by valuing each gate with the
/// truth of its subformula, to a valuation satisfying all emitted clauses
/// and giving the root name the formula's own truth value: the
/// completeness half of the encoding's correctness.
proof fn lemma_encoding_complete(f: Formula, idx: nat, v: Valuation)
    requires
        vars_unprefixed(f),
    ensures
        cnf_holds(clauses_of_pairs(spec_reduce(f, idx)), gate_extension(f, idx, v)),
        gate_extension(f, idx, v)(root_name(f, idx)) == feval(f, v),
    decreases f, 1nat,
{
    let ge = gate_extension(f, idx, v);
    match f {
        Formula::Var(n) => {
            lemma_clauses_of_pairs_single((n@, GateShape::Var(n@)));
            assert(clauses_of_pairs(spec_reduce(f, idx)).len() == 0);
        },
        Formula::Constant(b) => {
            let g = gate_name(idx);
            lemma_clauses_of_pairs_single((g, GateShape::Const(b)));
            assert(ge(g) == b);
            lemma_clause_lits1(lv(g, !b), ge);
            let cs = clauses_of_pairs(spec_reduce(f, idx));
            assert(cs == seq![seq![lv(g, !b)]]);
            assert forall|i: int| 0 <= i < cs.len() implies clause_holds(#[trigger] cs[i], ge) by {
                assert(cs[0] == seq![lv(g, !b)]);
            }
        },
        Formula::Not(s) => {
            let g = gate_name(idx);
            let y = root_name(*s, idx + 1);
            let head = (g, GateShape::Not(y));
            let ges = gate_extension(*s, idx + 1, v);
            let cop_s = clauses_of_pairs(spec_reduce(*s, idx + 1));
            lemma_encoding_complete(*s, idx + 1, v);
            lemma_fsize_pos(*s);
            lemma_gate_extension_agrees(*s, idx + 1, v);
            lemma_encoding_mentions(*s, idx + 1);
            lemma_gate_name_prefix(idx);
            lemma_clauses_of_pairs_single(head);
            lemma_clauses_of_pairs_add(seq![head], spec_reduce(*s, idx + 1));
            assert forall|k: Seq<char>| cnf_vars(cop_s).contains(k) implies
                #[trigger] ges(k) == ge(k) by {
                if has_gate_prefix(k) {
                    let j = choose|j: nat| idx + 1 <= j < idx + 1 + fsize(*s) && k == gate_name(j);
                    if k == g {
                        lemma_gate_name_injective(j, idx);
                    }
                } else {
                    assert(k != g);
                }
            }
            lemma_cnf_holds_congruence(cop_s, ges, ge);
            assert(ge(g) == !feval(*s, v));
            assert(vars_unprefixed(*s));
            assert(ge(y) == feval(*s, v)) by {
                match *s {
                    Formula::Var(n2) => {
                        assert(!has_gate_prefix(n2@));
                        assert(y == n2@);
                        assert(y != g);
                        assert(ge(y) == ges(y));
                    },
                    _ => {
                        assert(y == gate_name(idx + 1));
                        if y == g {
                            lemma_gate_name_injective(idx + 1, idx);
                        }
                        assert(ge(y) == ges(y));
                    },
                }
            }
            let cp_head = clauses_of_pair(g, GateShape::Not(y));
            lemma_clause_lits2(lv(g, true), lv(y, true), ge);
            lemma_clause_lits2(lv(g, false), lv(y, false), ge);
            assert forall|i: int| 0 <= i < cp_head.len() implies
                clause_holds(#[trigger] cp_head[i], ge) by {
                assert(cp_head[0] == seq![lv(g, true), lv(y, true)]);
                assert(cp_head[1] == seq![lv(g, false), lv(y, false)]);
                assert(i == 0 || i == 1);
            }
            lemma_cnf_holds_add(cp_head, cop_s, ge);
        },
        Formula::And(l, r) => {
            lemma_encoding_complete_binary(f, *l, *r, idx, v);
        },
        Formula::Or(l, r) => {
            lemma_encoding_complete_binary(f, *l, *r, idx, v);
        },
    }
}

/// The binary cases of the completeness argument: conjunction and
/// disjunction nodes share it.
proof fn lemma_encoding_complete_binary(f: Formula, l: Formula, r: Formula, idx: nat, v: Valuation)
    requires
        vars_unprefixed(f),
        match f {
            Formula::And(l2, r2) => *l2 == l && *r2 == r,
            Formula::Or(l2, r2) => *l2 == l && *r2 == r,
            _ => false,
        },
    ensures
        cnf_holds(clauses_of_pairs(spec_reduce(f, idx)), gate_extension(f, idx, v)),
        gate_extension(f, idx, v)(root_name(f, idx)) == feval(f, v),
    decreases f, 0nat,
{
    let g = gate_name(idx);
    let sl = fsize(l);
    let ln = root_name(l, idx + 1);
    let rn = root_name(r, idx + 1 + sl);
    let shape = if f is And {
        GateShape::And(ln, rn)
    } else {
        GateShape::Or(ln, rn)
    };
    let head = (g, shape);
    let gl = gate_extension(l, idx + 1, v);
    let gr = gate_extension(r, idx + 1 + sl, gl);
    let fv = if f is And {
        feval(l, v) && feval(r, v)
    } else {
        feval(l, v) || feval(r, v)
    };
    let ge = gate_extension(f, idx, v);
    assert(vars_unprefixed(l) && vars_unprefixed(r));
    assert(fsize(f) == 1 + sl + fsize(r));
    assert(feval(f, v) == fv);
    lemma_fsize_pos(l);
    lemma_fsize_pos(r);
    lemma_encoding_complete(l, idx + 1, v);
    lemma_encoding_complete(r, idx + 1 + sl, gl);
    lemma_gate_extension_agrees(l, idx + 1, v);
    lemma_gate_extension_agrees(r, idx + 1 + sl, gl);
    lemma_encoding_mentions(l, idx + 1);
    lemma_encoding_mentions(r, idx + 1 + sl);
    lemma_gate_name_prefix(idx);

    // The right subtree evaluates the same under the left extension as
    // under the base valuation: the extension touches only gate names.
    assert forall|k: Seq<char>| !has_gate_prefix(k) implies #[trigger] gl(k) == v(k) by {
        lemma_unprefixed_not_in_range(k, idx + 1, idx + 1 + sl);
    }
    lemma_feval_congruence(r, gl, v);
    assert(gr(rn) == feval(r, v));

    assert(spec_reduce(f, idx) == seq![head] + spec_reduce(l, idx + 1)
        + spec_reduce(r, idx + 1 + sl));
    lemma_clauses_of_pairs_single(head);
    lemma_clauses_of_pairs_add(seq![head], spec_reduce(l, idx + 1));
    lemma_clauses_of_pairs_add(seq![head] + spec_reduce(l, idx + 1), spec_reduce(r, idx + 1 + sl));
    let cp_head = clauses_of_pair(g, shape);
    let cop_l = clauses_of_pairs(spec_reduce(l, idx + 1));
    let cop_r = clauses_of_pairs(spec_reduce(r, idx + 1 + sl));

    // The left subtree's clauses mention only left-range gates and user
    // variables, which the right extension and the root override leave
    // untouched.
    assert forall|k: Seq<char>| cnf_vars(cop_l).contains(k) implies #[trigger] gl(k) == ge(k) by {
        if has_gate_prefix(k) {
            let j = choose|j: nat| idx + 1 <= j < idx + 1 + sl && k == gate_name(j);
            if k == g {
                lemma_gate_name_injective(j, idx);
            }
            if in_gate_range(k, idx + 1 + sl, idx + 1 + sl + fsize(r)) {
                let j2 = choose|j2: nat|
                    idx + 1 + sl <= j2 < idx + 1 + sl + fsize(r) && k == gate_name(j2);
                lemma_gate_name_injective(j, j2);
            }
            assert(gr(k) == gl(k));
            assert(ge(k) == gr(k));
        } else {
            assert(k != g);
            lemma_unprefixed_not_in_range(k, idx + 1 + sl, idx + 1 + sl + fsize(r));
            assert(gr(k) == gl(k));
            assert(ge(k) == gr(k));
        }
    }
    lemma_cnf_holds_congruence(cop_l, gl, ge);

    // The right subtree's clauses never mention the root gate.
    assert forall|k: Seq<char>| cnf_vars(cop_r).contains(k) implies #[trigger] gr(k) == ge(k) by {
        if has_gate_prefix(k) {
            let j = choose|j: nat|
                idx + 1 + sl <= j < idx + 1 + sl + fsize(r) && k == gate_name(j);
            if k == g {
                lemma_gate_name_injective(j, idx);
            }
            assert(ge(k) == gr(k));
        } else {
            assert(k != g);
            assert(ge(k) == gr(k));
        }
    }
    lemma_cnf_holds_congruence(cop_r, gr, ge);

    assert(ge(g) == fv);
    assert(ge(ln) == feval(l, v)) by {
        match l {
            Formula::Var(n2) => {
                assert(ln == n2@ && !has_gate_prefix(ln));
                assert(ln != g);
                lemma_unprefixed_not_in_range(ln, idx + 1 + sl, idx + 1 + sl + fsize(r));
                assert(gr(ln) == gl(ln));
                assert(ge(ln) == gr(ln));
            },
            _ => {
                assert(ln == gate_name(idx + 1));
                if ln == g {
                    lemma_gate_name_injective(idx + 1, idx);
                }
                if in_gate_range(ln, idx + 1 + sl, idx + 1 + sl + fsize(r)) {
                    let j2 = choose|j2: nat|
                        idx + 1 + sl <= j2 < idx + 1 + sl + fsize(r) && ln == gate_name(j2);
                    lemma_gate_name_injective(idx + 1, j2);
                }
                assert(gr(ln) == gl(ln));
                assert(ge(ln) == gr(ln));
            },
        }
    }
    assert(ge(rn) == feval(r, v)) by {
        match r {
            Formula::Var(n2) => {
                assert(rn == n2@ && !has_gate_prefix(rn));
                assert(rn != g);
                assert(ge(rn) == gr(rn));
            },
            _ => {
                assert(rn == gate_name(idx + 1 + sl));
                if rn == g {
                    lemma_gate_name_injective(idx + 1 + sl, idx);
                }
                assert(ge(rn) == gr(rn));
            },
        }
    }

    if f is And {
        lemma_clause_lits2(lv(g, true), lv(ln, false), ge);
        lemma_clause_lits2(lv(g, true), lv(rn, false), ge);
        lemma_clause_lits3(lv(g, false), lv(ln, true), lv(rn, true), ge);
        assert forall|i: int| 0 <= i < cp_head.len() implies
            clause_holds(#[trigger] cp_head[i], ge) by {
            assert(cp_head[0] == seq![lv(g, true), lv(ln, false)]);
            assert(cp_head[1] == seq![lv(g, true), lv(rn, false)]);
            assert(cp_head[2] == seq![lv(g, false), lv(ln, true), lv(rn, true)]);
            assert(i == 0 || i == 1 || i == 2);
        }
    } else {
        lemma_clause_lits2(lv(g, false), lv(ln, true), ge);
        lemma_clause_lits2(lv(g, false), lv(rn, true), ge);
        lemma_clause_lits3(lv(g, true), lv(ln, false), lv(rn, false), ge);
        assert forall|i: int| 0 <= i < cp_head.len() implies
            clause_holds(#[trigger] cp_head[i], ge) by {
            assert(cp_head[0] == seq![lv(g, false), lv(ln, true)]);
            assert(cp_head[1] == seq![lv(g, false), lv(rn, true)]);
            assert(cp_head[2] == seq![lv(g, true), lv(ln, false), lv(rn, false)]);
            assert(i == 0 || i == 1 || i == 2);
        }
    }
    lemma_cnf_holds_add(cp_head, cop_l, ge);
    lemma_cnf_holds_add(cp_head + cop_l, cop_r, ge);
}

/// The conjunction the solver actually searches: the encoder's clauses
/// together with the unit clause asserting the root gate, so that the
/// verdict matches the formula's own satisfiability.
pub open spec fn rooted_cnf(f: Formula) -> Seq<Seq<LitView>> {
    spec_cnf(f).push(seq![lv(root_name(f, 0), false)])
}

/// A discovered assignment is a genuine witness: when a partial
/// assignment satisfies every clause of the rooted encoding, every
/// valuation agreeing with it makes the formula itself true.
pub proof fn lemma_witness_satisfies_formula(f: Formula, a: Map<Seq<char>, bool>, v: Valuation)
    requires
        cnf_sat_by(rooted_cnf(f), a),
        agrees_with(v, a),
    ensures
        feval(f, v),
{
    let root_clause = seq![lv(root_name(f, 0), false)];
    lemma_sat_by_implies_holds(rooted_cnf(f), a, v);
    lemma_cnf_holds_push(spec_cnf(f), root_clause, v);
    lemma_clause_lits1(lv(root_name(f, 0), false), v);
    lemma_encoding_sound(f, 0, v);
}

/// Equisatisfiability of the Tseytin encoding: with the root gate
/// asserted, the emitted conjunction is satisfiable from the empty
/// assignment exactly when the formula itself is satisfiable.
pub proof fn lemma_rooted_cnf_equisatisfiable(f: Formula)
    requires
        vars_unprefixed(f),
    ensures
        satisfiable_from(rooted_cnf(f), Map::<Seq<char>, bool>::empty())
            == formula_satisfiable(f),
{
    let root_clause = seq![lv(root_name(f, 0), false)];
    if formula_satisfiable(f) {
        let v = choose|v: Valuation| feval(f, v);
        lemma_encoding_complete(f, 0, v);
        let ge = gate_extension(f, 0, v);
        lemma_cnf_holds_push(spec_cnf(f), root_clause, ge);
        lemma_clause_lits1(lv(root_name(f, 0), false), ge);
        assert(agrees_with(ge, Map::<Seq<char>, bool>::empty()));
        assert(cnf_holds(rooted_cnf(f), ge));
        assert(satisfiable_from(rooted_cnf(f), Map::<Seq<char>, bool>::empty()));
    }
    if satisfiable_from(rooted_cnf(f), Map::<Seq<char>, bool>::empty()) {
        let v = choose|v: Valuation|
            agrees_with(v, Map::<Seq<char>, bool>::empty()) && cnf_holds(rooted_cnf(f), v);
        lemma_cnf_holds_push(spec_cnf(f), root_clause, v);
        lemma_clause_lits1(lv(root_name(f, 0), false), v);
        lemma_encoding_sound(f, 0, v);
        assert(feval(f, v));
        assert(formula_satisfiable(f));
    }
}

} // verus!
