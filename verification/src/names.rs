//! Gate-variable names for the Tseytin encoder. Every non-leaf subformula
//! receives a fresh name derived from its index; the reserved prefix keeps
//! gate names apart from user variable names, and the decimal rendering of
//! the index keeps gate names apart from each other.

use vstd::prelude::*;

use vstd::arithmetic::div_mod::lemma_fundamental_div_mod;
use vstd::string::StringExecFns;

verus! {

/// The character for one decimal digit.
pub open spec fn digit_char(d: nat) -> char {
    if d == 0 {
        '0'
    } else if d == 1 {
        '1'
    } else if d == 2 {
        '2'
    } else if d == 3 {
        '3'
    } else if d == 4 {
        '4'
    } else if d == 5 {
        '5'
    } else if d == 6 {
        '6'
    } else if d == 7 {
        '7'
    } else if d == 8 {
        '8'
    } else {
        '9'
    }
}

/// The decimal rendering of a number, most significant digit first.
pub open spec fn dec_digits(n: nat) -> Seq<char>
    decreases n,
{
    if n < 10 {
        seq![digit_char(n)]
    } else {
        dec_digits(n / 10).push(digit_char(n % 10))
    }
}

/// A gate-variable name: one for each index.
pub open spec fn gate_name(i: nat) -> Seq<char> {
    seq!['x', '['] + dec_digits(i) + seq![']']
}

/// Whether a name starts with the prefix reserved for gate variables.
/// No user variable may carry it; that keeps gates and user variables
/// apart by construction.
pub open spec fn has_gate_prefix(s: Seq<char>) -> bool {
    s.len() >= 2 && s[0] == 'x' && s[1] == '['
}

/// Distinct digits render as distinct characters.
proof fn lemma_digit_char_injective(d1: nat, d2: nat)
    requires
        d1 < 10,
        d2 < 10,
        digit_char(d1) == digit_char(d2),
    ensures
        d1 == d2,
{
}

/// A decimal rendering has at least one digit.
proof fn lemma_dec_digits_len(n: nat)
    ensures
        dec_digits(n).len() >= 1,
    decreases n,
{
    if n >= 10 {
        lemma_dec_digits_len(n / 10);
    }
}

/// Distinct numbers have distinct decimal renderings.
proof fn lemma_dec_digits_injective(m: nat, n: nat)
    requires
        dec_digits(m) == dec_digits(n),
    ensures
        m == n,
    decreases m + n,
{
    if m < 10 && n < 10 {
        assert(dec_digits(m)[0] == digit_char(m));
        assert(dec_digits(n)[0] == digit_char(n));
        lemma_digit_char_injective(m, n);
    } else if m < 10 {
        lemma_dec_digits_len(n / 10);
        assert(dec_digits(n).len() >= 2);
    } else if n < 10 {
        lemma_dec_digits_len(m / 10);
        assert(dec_digits(m).len() >= 2);
    } else {
        let dm = dec_digits(m);
        let dn = dec_digits(n);
        assert(dm.last() == digit_char(m % 10));
        assert(dn.last() == digit_char(n % 10));
        lemma_digit_char_injective(m % 10, n % 10);
        assert(dm.drop_last() =~= dec_digits(m / 10));
        assert(dn.drop_last() =~= dec_digits(n / 10));
        lemma_dec_digits_injective(m / 10, n / 10);
        lemma_fundamental_div_mod(m as int, 10);
        lemma_fundamental_div_mod(n as int, 10);
    }
}

/// Every gate name carries the reserved prefix.
pub proof fn lemma_gate_name_prefix(i: nat)
    ensures
        has_gate_prefix(gate_name(i)),
        gate_name(i).len() >= 4,
{
    lemma_dec_digits_len(i);
}

/// Distinct gate indices yield distinct gate names.
pub proof fn lemma_gate_name_injective(i: nat, j: nat)
    requires
        gate_name(i) == gate_name(j),
    ensures
        i == j,
{
    let gi = gate_name(i);
    let gj = gate_name(j);
    lemma_dec_digits_len(i);
    lemma_dec_digits_len(j);
    assert(gi.len() == dec_digits(i).len() + 3);
    assert(gj.len() == dec_digits(j).len() + 3);
    assert(dec_digits(i) =~= gi.subrange(2, gi.len() - 1)) by {
        assert forall|k: int| 0 <= k < dec_digits(i).len() implies
            dec_digits(i)[k] == gi[k + 2] by {}
    }
    assert(dec_digits(j) =~= gj.subrange(2, gj.len() - 1)) by {
        assert forall|k: int| 0 <= k < dec_digits(j).len() implies
            dec_digits(j)[k] == gj[k + 2] by {}
    }
    lemma_dec_digits_injective(i, j);
}

/// The one-character string for one decimal digit.
fn digit_str(d: usize) -> (r: &'static str)
    requires
        d < 10,
    ensures
        r@ == seq![digit_char(d as nat)],
{
    proof {
        reveal_strlit("0");
        reveal_strlit("1");
        reveal_strlit("2");
        reveal_strlit("3");
        reveal_strlit("4");
        reveal_strlit("5");
        reveal_strlit("6");
        reveal_strlit("7");
        reveal_strlit("8");
        reveal_strlit("9");
    }
    let r = if d == 0 {
        "0"
    } else if d == 1 {
        "1"
    } else if d == 2 {
        "2"
    } else if d == 3 {
        "3"
    } else if d == 4 {
        "4"
    } else if d == 5 {
        "5"
    } else if d == 6 {
        "6"
    } else if d == 7 {
        "7"
    } else if d == 8 {
        "8"
    } else {
        "9"
    };
    proof {
        assert(r@ =~= seq![digit_char(d as nat)]);
    }
    r
}

/// The decimal rendering of a number as a string.
fn decimal_string(n: usize) -> (r: String)
    ensures
        r@ == dec_digits(n as nat),
    decreases n,
{
    if n < 10 {
        String::from_str(digit_str(n))
    } else {
        let mut s = decimal_string(n / 10);
        s.append(digit_str(n % 10));
        proof {
            assert(s@ =~= dec_digits(n as nat));
        }
        s
    }
}

/// Generate a gate-variable name from its index.
pub fn gen_var(idx: usize) -> (r: String)
    ensures
        r@ == gate_name(idx as nat),
{
    proof {
        reveal_strlit("x[");
        reveal_strlit("]");
    }
    let mut s = String::from_str("x[");
    let digits = decimal_string(idx);
    s.append(digits.as_str());
    s.append("]");
    proof {
        assert(s@ =~= gate_name(idx as nat));
    }
    s
}

} // verus!
