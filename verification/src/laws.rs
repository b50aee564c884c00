//! The laws the library obeys, stated and proved over the same model its
//! operators' contracts use: values of digit sequences, trimmed forms,
//! and the canonical digits of a value.

use crate::bits::{
    and_bits, bit, canon, is_trimmed, lemma_and_bits, lemma_canon, lemma_canon_complete,
    lemma_or_bits, lemma_pad_to, lemma_sig_len_bits, lemma_sig_len_le_len, lemma_sig_len_unique,
    lemma_value_eq_iff_bits, lemma_value_eq_iff_trim, lemma_value_trim, lemma_xor_bits, max_nat,
    or_bits, pad_to, sig_len, trim_bits, value_of, xor_bits, xor_raw,
};
use crate::num::UInt;
use crate::Boolean;
use core::cmp::Ordering;
use vstd::arithmetic::div_mod::{
    lemma_div_basics, lemma_fundamental_div_mod, lemma_fundamental_div_mod_converse_mod,
    lemma_small_mod,
};
use vstd::arithmetic::power2::{lemma2_to64, pow2};
use vstd::prelude::*;
use vstd::std_specs::cmp::{PartialEqSpec, PartialOrdSpec};

verus! {

/// Round trip: the canonical digits a native integer builds read back as
/// that integer, both as the low native word and as the full value.
pub proof fn lemma_native_round_trip(x: u64, n: UInt)
    requires
        n@ == canon(x as nat),
    ensures
        value_of(n@) == x as nat,
        value_of(n@) % pow2(64) == x as nat,
{
    lemma_canon(x as nat);
    lemma2_to64();
    lemma_small_mod(x as nat, pow2(64));
}

/// Trimming is idempotent, and keeps the significant length.
pub proof fn lemma_trim_idempotent(s: Seq<Boolean>)
    ensures
        trim_bits(trim_bits(s)) == trim_bits(s),
        sig_len(trim_bits(s)) == sig_len(s),
{
    lemma_sig_len_le_len(s);
    lemma_sig_len_bits(s);
    lemma_sig_len_unique(trim_bits(s), sig_len(s));
    assert(trim_bits(trim_bits(s)) =~= trim_bits(s));
}

/// Equality of numbers is equality of values, and equality of values is
/// equality of trimmed forms: padding with trailing `False` digits never
/// tells two representations of one number apart.
pub proof fn lemma_eq_ignores_padding(a: UInt, b: UInt)
    ensures
        a.eq_spec(&b) <==> trim_bits(a@) == trim_bits(b@),
        value_of(pad_to(a@, b@.len())) == value_of(a@),
{
    lemma_value_eq_iff_trim(a@, b@);
    lemma_pad_to(a@, b@.len());
}

/// Equality is reflexive.
pub proof fn lemma_eq_reflexive(a: UInt)
    ensures
        a.eq_spec(&a),
{
}

/// Equality is symmetric.
pub proof fn lemma_eq_symmetric(a: UInt, b: UInt)
    requires
        a.eq_spec(&b),
    ensures
        b.eq_spec(&a),
{
}

/// Equality is transitive.
pub proof fn lemma_eq_transitive(a: UInt, b: UInt, c: UInt)
    requires
        a.eq_spec(&b),
        b.eq_spec(&c),
    ensures
        a.eq_spec(&c),
{
}

/// The comparison is a total order: every pair of numbers is ordered, the
/// three outcomes sort by value, and exactly one of them holds.
pub proof fn lemma_ord_total(a: UInt, b: UInt)
    ensures
        a.partial_cmp_spec(&b) is Some,
        a.partial_cmp_spec(&b) == Some(Ordering::Equal) <==> a.eq_spec(&b),
        a.partial_cmp_spec(&b) == Some(Ordering::Less) <==> value_of(a@) < value_of(b@),
        a.partial_cmp_spec(&b) == Some(Ordering::Greater) <==> value_of(a@) > value_of(b@),
{
}

/// The comparison is antisymmetric: ordered both ways, two numbers are
/// equal.
pub proof fn lemma_ord_antisymmetric(a: UInt, b: UInt)
    requires
        a.partial_cmp_spec(&b) != Some(Ordering::Greater),
        b.partial_cmp_spec(&a) != Some(Ordering::Greater),
    ensures
        a.eq_spec(&b),
{
}

/// The comparison is transitive.
pub proof fn lemma_ord_transitive(a: UInt, b: UInt, c: UInt)
    requires
        a.partial_cmp_spec(&b) == Some(Ordering::Less),
        b.partial_cmp_spec(&c) == Some(Ordering::Less),
    ensures
        a.partial_cmp_spec(&c) == Some(Ordering::Less),
{
}

/// The order of numbers agrees with the order of the native integers they
/// are built from.
pub proof fn lemma_ord_matches_native(x: u64, y: u64)
    ensures
        value_of(canon(x as nat)) < value_of(canon(y as nat)) <==> x < y,
{
    lemma_canon(x as nat);
    lemma_canon(y as nat);
}

/// Bitwise conjunction is commutative, digit for digit.
pub proof fn lemma_and_commutative(a: Seq<Boolean>, b: Seq<Boolean>)
    ensures
        and_bits(a, b) == and_bits(b, a),
{
    assert(and_bits(a, b) =~= and_bits(b, a));
}

/// Bitwise disjunction is commutative, digit for digit.
pub proof fn lemma_or_commutative(a: Seq<Boolean>, b: Seq<Boolean>)
    ensures
        or_bits(a, b) == or_bits(b, a),
{
    assert(or_bits(a, b) =~= or_bits(b, a));
}

/// Exclusive or is commutative, digit for digit.
pub proof fn lemma_xor_commutative(a: Seq<Boolean>, b: Seq<Boolean>)
    ensures
        xor_bits(a, b) == xor_bits(b, a),
{
    assert(xor_raw(a, b) =~= xor_raw(b, a));
}

/// Conjunction with oneself gives back the trimmed form: conjunction is
/// idempotent up to padding.
pub proof fn lemma_and_idempotent(a: Seq<Boolean>)
    ensures
        and_bits(a, a) == trim_bits(a),
        value_of(and_bits(a, a)) == value_of(a),
{
    lemma_sig_len_le_len(a);
    lemma_sig_len_bits(a);
    assert(and_bits(a, a) =~= trim_bits(a));
    lemma_value_trim(a);
}

/// Disjunction with oneself gives back the trimmed form: disjunction is
/// idempotent up to padding.
pub proof fn lemma_or_idempotent(a: Seq<Boolean>)
    ensures
        or_bits(a, a) == trim_bits(a),
        value_of(or_bits(a, a)) == value_of(a),
{
    lemma_sig_len_le_len(a);
    lemma_sig_len_bits(a);
    assert(or_bits(a, a) =~= trim_bits(a));
    lemma_value_trim(a);
}

/// Conjunction is associative in value: either association holds the same
/// number, though the stored cut may differ.
pub proof fn lemma_and_associative(a: Seq<Boolean>, b: Seq<Boolean>, c: Seq<Boolean>)
    ensures
        value_of(and_bits(and_bits(a, b), c)) == value_of(and_bits(a, and_bits(b, c))),
{
    lemma_and_bits(a, b);
    lemma_and_bits(b, c);
    lemma_and_bits(and_bits(a, b), c);
    lemma_and_bits(a, and_bits(b, c));
    lemma_value_eq_iff_bits(and_bits(and_bits(a, b), c), and_bits(a, and_bits(b, c)));
}

/// The significant length of a disjunction is the longer operand's.
proof fn lemma_or_sig_len(a: Seq<Boolean>, b: Seq<Boolean>)
    ensures
        sig_len(or_bits(a, b)) == max_nat(sig_len(a), sig_len(b)),
{
    let m = max_nat(sig_len(a), sig_len(b));
    lemma_sig_len_bits(a);
    lemma_sig_len_bits(b);
    if m > 0 {
        assert(bit(a, m - 1) || bit(b, m - 1));
        assert(or_bits(a, b)[m - 1] == Boolean::True);
    }
    lemma_sig_len_unique(or_bits(a, b), m);
}

/// Disjunction is associative, digit for digit.
pub proof fn lemma_or_associative(a: Seq<Boolean>, b: Seq<Boolean>, c: Seq<Boolean>)
    ensures
        or_bits(or_bits(a, b), c) == or_bits(a, or_bits(b, c)),
{
    lemma_or_bits(a, b);
    lemma_or_bits(b, c);
    lemma_or_bits(or_bits(a, b), c);
    lemma_or_bits(a, or_bits(b, c));
    lemma_or_sig_len(a, b);
    lemma_or_sig_len(b, c);
    lemma_or_sig_len(or_bits(a, b), c);
    lemma_or_sig_len(a, or_bits(b, c));
    assert(or_bits(or_bits(a, b), c) =~= or_bits(a, or_bits(b, c)));
}

/// Exclusive or is associative, digit for digit: both associations are
/// trimmed and agree everywhere.
pub proof fn lemma_xor_associative(a: Seq<Boolean>, b: Seq<Boolean>, c: Seq<Boolean>)
    ensures
        xor_bits(xor_bits(a, b), c) == xor_bits(a, xor_bits(b, c)),
{
    let l = xor_bits(xor_bits(a, b), c);
    let r = xor_bits(a, xor_bits(b, c));
    lemma_xor_bits(a, b);
    lemma_xor_bits(b, c);
    lemma_xor_bits(xor_bits(a, b), c);
    lemma_xor_bits(a, xor_bits(b, c));
    lemma_value_eq_iff_bits(l, r);
    assert(is_trimmed(l) && is_trimmed(r)) by {
        lemma_sig_len_le_len(xor_raw(xor_bits(a, b), c));
        lemma_sig_len_bits(xor_raw(xor_bits(a, b), c));
        lemma_sig_len_unique(l, sig_len(xor_raw(xor_bits(a, b), c)));
        lemma_sig_len_le_len(xor_raw(a, xor_bits(b, c)));
        lemma_sig_len_bits(xor_raw(a, xor_bits(b, c)));
        lemma_sig_len_unique(r, sig_len(xor_raw(a, xor_bits(b, c))));
    }
    lemma_canon_complete(l);
    lemma_canon_complete(r);
}

/// Addition is commutative: the canonical sums of the two operand orders
/// hold the same digits.
pub proof fn lemma_add_commutative(a: UInt, b: UInt, r1: UInt, r2: UInt)
    requires
        is_trimmed(r1@),
        value_of(r1@) == value_of(a@) + value_of(b@),
        is_trimmed(r2@),
        value_of(r2@) == value_of(b@) + value_of(a@),
    ensures
        r1@ == r2@,
{
    lemma_canon_complete(r1@);
    lemma_canon_complete(r2@);
}

/// Addition is associative: summing either pairing first gives the same
/// canonical digits.
pub proof fn lemma_add_associative(a: UInt, b: UInt, c: UInt, r1: UInt, r2: UInt)
    requires
        is_trimmed(r1@),
        value_of(r1@) == (value_of(a@) + value_of(b@)) + value_of(c@),
        is_trimmed(r2@),
        value_of(r2@) == value_of(a@) + (value_of(b@) + value_of(c@)),
    ensures
        r1@ == r2@,
{
    lemma_canon_complete(r1@);
    lemma_canon_complete(r2@);
}

/// Zero is the identity of addition: the canonical sum with a zero value
/// is the trimmed left operand.
pub proof fn lemma_add_identity(a: UInt, z: UInt, r: UInt)
    requires
        value_of(z@) == 0,
        is_trimmed(r@),
        value_of(r@) == value_of(a@) + value_of(z@),
    ensures
        r@ == trim_bits(a@),
        value_of(r@) == value_of(a@),
{
    lemma_canon_complete(r@);
    lemma_value_trim(a@);
    lemma_sig_len_le_len(a@);
    lemma_sig_len_bits(a@);
    lemma_sig_len_unique(trim_bits(a@), sig_len(a@));
    lemma_canon_complete(trim_bits(a@));
}

/// Multiplication is commutative in value, despite the asymmetric double-
/// and-add algorithm: the canonical products of the two operand orders
/// hold the same digits.
pub proof fn lemma_mul_commutative(a: UInt, b: UInt, r1: UInt, r2: UInt)
    requires
        is_trimmed(r1@),
        value_of(r1@) == value_of(a@) * value_of(b@),
        is_trimmed(r2@),
        value_of(r2@) == value_of(b@) * value_of(a@),
    ensures
        r1@ == r2@,
{
    assert(value_of(a@) * value_of(b@) == value_of(b@) * value_of(a@)) by (nonlinear_arith);
    lemma_canon_complete(r1@);
    lemma_canon_complete(r2@);
}

/// Multiplication is associative: multiplying either pairing first gives
/// the same canonical digits.
pub proof fn lemma_mul_associative(a: UInt, b: UInt, c: UInt, r1: UInt, r2: UInt)
    requires
        is_trimmed(r1@),
        value_of(r1@) == (value_of(a@) * value_of(b@)) * value_of(c@),
        is_trimmed(r2@),
        value_of(r2@) == value_of(a@) * (value_of(b@) * value_of(c@)),
    ensures
        r1@ == r2@,
{
    assert((value_of(a@) * value_of(b@)) * value_of(c@) == value_of(a@) * (value_of(b@)
        * value_of(c@))) by (nonlinear_arith);
    lemma_canon_complete(r1@);
    lemma_canon_complete(r2@);
}

/// One is the identity of multiplication: the canonical product with a
/// unit value is the trimmed left operand.
pub proof fn lemma_mul_identity(a: UInt, one: UInt, r: UInt)
    requires
        value_of(one@) == 1,
        is_trimmed(r@),
        value_of(r@) == value_of(a@) * value_of(one@),
    ensures
        r@ == trim_bits(a@),
        value_of(r@) == value_of(a@),
{
    assert(value_of(a@) * 1 == value_of(a@)) by (nonlinear_arith);
    lemma_canon_complete(r@);
    lemma_value_trim(a@);
    lemma_sig_len_le_len(a@);
    lemma_sig_len_bits(a@);
    lemma_sig_len_unique(trim_bits(a@), sig_len(a@));
    lemma_canon_complete(trim_bits(a@));
}

/// Multiplication by a zero value yields the zero number: the empty digit
/// sequence.
pub proof fn lemma_mul_zero(a: UInt, z: UInt, r: UInt)
    requires
        value_of(z@) == 0,
        is_trimmed(r@),
        value_of(r@) == value_of(a@) * value_of(z@),
    ensures
        r@ == Seq::<Boolean>::empty(),
{
    assert(value_of(a@) * 0 == 0) by (nonlinear_arith);
    lemma_canon_complete(r@);
    assert(canon(0) =~= Seq::<Boolean>::empty());
}

/// A number minus itself is zero: the empty digit sequence.
pub proof fn lemma_sub_self(a: UInt, r: UInt)
    requires
        is_trimmed(r@),
        value_of(r@) == value_of(a@) - value_of(a@),
    ensures
        r@ == Seq::<Boolean>::empty(),
{
    lemma_canon_complete(r@);
    assert(canon(0) =~= Seq::<Boolean>::empty());
}

/// A nonzero number divided by itself is one: the single `True` digit.
pub proof fn lemma_div_self(a: UInt, r: UInt)
    requires
        value_of(a@) > 0,
        is_trimmed(r@),
        value_of(r@) == value_of(a@) / value_of(a@),
    ensures
        r@ == seq![Boolean::True],
{
    lemma_div_basics(value_of(a@) as int);
    lemma_canon_complete(r@);
    assert(canon(0) =~= Seq::<Boolean>::empty());
    assert(canon(1) =~= seq![Boolean::True]);
}

/// A nonzero number modulo itself is zero: the empty digit sequence.
pub proof fn lemma_rem_self(a: UInt, r: UInt)
    requires
        value_of(a@) > 0,
        is_trimmed(r@),
        value_of(r@) == value_of(a@) % value_of(a@),
    ensures
        r@ == Seq::<Boolean>::empty(),
{
    let v = value_of(a@) as int;
    lemma_fundamental_div_mod_converse_mod(v, v, 1, 0);
    lemma_canon_complete(r@);
    assert(canon(0) =~= Seq::<Boolean>::empty());
}

/// The division identity: for a nonzero divisor, the divisor times the
/// quotient plus the remainder gives back the dividend.
pub proof fn lemma_division_identity(a: UInt, b: UInt)
    requires
        value_of(b@) > 0,
    ensures
        value_of(b@) * (value_of(a@) / value_of(b@)) + value_of(a@) % value_of(b@) == value_of(
            a@,
        ),
{
    lemma_fundamental_div_mod(value_of(a@) as int, value_of(b@) as int);
}

} // verus!
