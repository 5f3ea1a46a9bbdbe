//! Decimal notation, and the calls into other crates whose results the
//! library relies on.
use itertools::Itertools;
use vstd::prelude::*;

use crate::order::{str_le, str_lt};

verus! {

/// The decimal digit `d`.
pub open spec fn digit_char(d: nat) -> char {
    seq!['0', '1', '2', '3', '4', '5', '6', '7', '8', '9'][d as int]
}

/// Decimal notation of `n`: no sign, no leading zeros.
pub open spec fn decimal(n: nat) -> Seq<char>
    decreases n,
{
    if n < 10 {
        seq![digit_char(n)]
    } else {
        decimal(n / 10).push(digit_char(n % 10))
    }
}

/// The value of a decimal digit character.
pub open spec fn digit_value(c: char) -> nat {
    if c == '0' { 0 } else if c == '1' { 1 } else if c == '2' { 2 } else if c == '3' { 3 }
    else if c == '4' { 4 } else if c == '5' { 5 } else if c == '6' { 6 } else if c == '7' { 7 }
    else if c == '8' { 8 } else { 9 }
}

proof fn lemma_digit_value(d: nat)
    requires
        d < 10,
    ensures
        digit_value(digit_char(d)) == d,
{
    let ds = seq!['0', '1', '2', '3', '4', '5', '6', '7', '8', '9'];
    assert(digit_char(d) == ds[d as int]);
    if d == 0 {} else if d == 1 {} else if d == 2 {} else if d == 3 {} else if d == 4 {}
    else if d == 5 {} else if d == 6 {} else if d == 7 {} else if d == 8 {} else {}
}

pub proof fn lemma_decimal_len(n: nat)
    ensures
        decimal(n).len() >= 1,
        n < 10 <==> decimal(n).len() == 1,
    decreases n,
{
    if n >= 10 {
        lemma_decimal_len(n / 10);
    }
}

/// Different numbers have different decimal notations.
pub proof fn lemma_decimal_injective(a: nat, b: nat)
    requires
        decimal(a) == decimal(b),
    ensures
        a == b,
    decreases a,
{
    lemma_decimal_len(a);
    lemma_decimal_len(b);
    if a < 10 && b < 10 {
        assert(decimal(a)[0] == digit_char(a));
        assert(decimal(b)[0] == digit_char(b));
        lemma_digit_value(a);
        lemma_digit_value(b);
    } else if a >= 10 && b >= 10 {
        let da = decimal(a);
        assert(da.last() == digit_char(a % 10));
        assert(decimal(b).last() == digit_char(b % 10));
        lemma_digit_value(a % 10);
        lemma_digit_value(b % 10);
        assert(decimal(a / 10) == da.drop_last());
        assert(decimal(b / 10) == decimal(b).drop_last());
        lemma_decimal_injective(a / 10, b / 10);
        assert(a == 10 * (a / 10) + a % 10) by (nonlinear_arith);
        assert(b == 10 * (b / 10) + b % 10) by (nonlinear_arith);
    }
}

/// `n` in decimal, without sign or leading zeros.
pub fn decimal_string(n: usize) -> (r: String)
    ensures
        r@ == decimal(n as nat),
{
    let digits = "0123456789";
    proof {
        reveal_strlit("0123456789");
        assert(digits@ =~= seq!['0', '1', '2', '3', '4', '5', '6', '7', '8', '9']);
    }
    let mut m = n;
    let mut acc = String::new();
    assert(decimal(n as nat) =~= decimal(m as nat) + acc@);
    while m >= 10
        invariant
            decimal(n as nat) == decimal(m as nat) + acc@,
            digits@ == seq!['0', '1', '2', '3', '4', '5', '6', '7', '8', '9'],
        decreases m,
    {
        let d = m % 10;
        let piece = digits.substring_char(d, d + 1);
        proof {
            assert(piece@ =~= seq![digit_char(d as nat)]);
            assert(decimal(m as nat) == decimal((m / 10) as nat).push(digit_char(d as nat)));
            assert(decimal(m as nat) + acc@ =~= decimal((m / 10) as nat) + (piece@ + acc@));
        }
        acc = String::from_str(piece).concat(acc.as_str());
        m = m / 10;
    }
    let piece = digits.substring_char(m, m + 1);
    proof {
        assert(piece@ =~= seq![digit_char(m as nat)]);
    }
    String::from_str(piece).concat(acc.as_str())
}

/// A (group, name) pair by its values.
pub open spec fn group_pair_view(p: (usize, String)) -> (usize, Seq<char>) {
    (p.0, p.1@)
}

/// A pair of names by their values.
pub open spec fn name_pair_view(p: (String, String)) -> (Seq<char>, Seq<char>) {
    (p.0@, p.1@)
}

/// `p` comes before `q` or equals it: by group, then by name.
pub open spec fn group_pair_le(p: (usize, Seq<char>), q: (usize, Seq<char>)) -> bool {
    p.0 < q.0 || (p.0 == q.0 && str_le(p.1, q.1))
}

/// `p` comes before `q` or equals it: by first name, then by second.
pub open spec fn name_pair_le(p: (Seq<char>, Seq<char>), q: (Seq<char>, Seq<char>)) -> bool {
    str_lt(p.0, q.0) || (p.0 == q.0 && str_le(p.1, q.1))
}

/// Relies on `Itertools::sorted`: the same pairs in ascending order, where
/// tuples compare field by field and strings by their bytes.
#[verifier::external_body]
pub(crate) fn sorted_group_pairs(v: Vec<(usize, String)>) -> (r: Vec<(usize, String)>)
    ensures
        r@.map_values(|p: (usize, String)| group_pair_view(p)).to_multiset() == v@.map_values(
            |p: (usize, String)| group_pair_view(p),
        ).to_multiset(),
        forall|i: int, j: int|
            0 <= i < j < r@.len() ==> group_pair_le(
                group_pair_view(#[trigger] r@[i]),
                group_pair_view(#[trigger] r@[j]),
            ),
{
    v.into_iter().sorted().collect()
}

/// Relies on `Itertools::sorted`: the same pairs in ascending order, where
/// tuples compare field by field and strings by their bytes.
#[verifier::external_body]
pub(crate) fn sorted_name_pairs(v: Vec<(String, String)>) -> (r: Vec<(String, String)>)
    ensures
        r@.map_values(|p: (String, String)| name_pair_view(p)).to_multiset() == v@.map_values(
            |p: (String, String)| name_pair_view(p),
        ).to_multiset(),
        forall|i: int, j: int|
            0 <= i < j < r@.len() ==> name_pair_le(
                name_pair_view(#[trigger] r@[i]),
                name_pair_view(#[trigger] r@[j]),
            ),
{
    v.into_iter().sorted().collect()
}

/// Relies on `rand::random`: some number, of which nothing is known.
#[verifier::external_body]
pub(crate) fn random_salt() -> usize {
    rand::random::<usize>()
}

} // verus!
