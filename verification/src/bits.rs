//! The mathematical model of a bit sequence: what a sequence of logic
//! digits (least-significant first) is worth as a natural number, which
//! prefix of it is significant, and the canonical (trimmed) sequence of a
//! given value.

use crate::Boolean;
use vstd::arithmetic::power2::*;
use vstd::prelude::*;

verus! {

/// Digit `i` of the sequence, read as a native boolean; positions past the
/// stored length are zero digits.
pub open spec fn bit(s: Seq<Boolean>, i: int) -> bool {
    0 <= i < s.len() && s[i] == Boolean::True
}

/// The natural number a digit sequence stands for: digit `i` contributes
/// `2^i` when it is `True`.
pub open spec fn value_of(s: Seq<Boolean>) -> nat
    decreases s.len(),
{
    if s.len() == 0 {
        0
    } else {
        (if s[0] == Boolean::True {
            1nat
        } else {
            0nat
        }) + 2 * value_of(s.drop_first())
    }
}

/// The significant length: index of the highest `True` digit plus one, or
/// zero when every digit is `False`.
pub open spec fn sig_len(s: Seq<Boolean>) -> nat
    decreases s.len(),
{
    if s.len() == 0 {
        0
    } else if s.last() == Boolean::True {
        s.len()
    } else {
        sig_len(s.drop_last())
    }
}

/// The trimmed form: the significant prefix, with every trailing `False`
/// digit removed.
pub open spec fn trim_bits(s: Seq<Boolean>) -> Seq<Boolean> {
    s.take(sig_len(s) as int)
}

/// A sequence is trimmed when it carries no trailing `False` digits.
pub open spec fn is_trimmed(s: Seq<Boolean>) -> bool {
    sig_len(s) == s.len()
}

/// The canonical digit sequence of a value: empty for zero, otherwise the
/// low digit followed by the canonical form of the halved value.
pub open spec fn canon(v: nat) -> Seq<Boolean>
    decreases v,
{
    if v == 0 {
        Seq::empty()
    } else {
        seq![Boolean::of_bool(v % 2 == 1)] + canon(v / 2)
    }
}

/// The smaller of two lengths.
pub open spec fn min_nat(a: nat, b: nat) -> nat {
    if a <= b {
        a
    } else {
        b
    }
}

/// The larger of two lengths.
pub open spec fn max_nat(a: nat, b: nat) -> nat {
    if a <= b {
        b
    } else {
        a
    }
}

/// The significant length never exceeds the stored length.
pub proof fn lemma_sig_len_le_len(s: Seq<Boolean>)
    ensures
        sig_len(s) <= s.len(),
    decreases s.len(),
{
    if s.len() > 0 && s.last() != Boolean::True {
        lemma_sig_len_le_len(s.drop_last());
    }
}

/// Every digit at or past the significant length is `False`, and the digit
/// just below it (when there is one) is `True`.
pub proof fn lemma_sig_len_bits(s: Seq<Boolean>)
    ensures
        sig_len(s) <= s.len(),
        forall|i: int| sig_len(s) <= i < s.len() ==> s[i] == Boolean::False,
        sig_len(s) > 0 ==> s[sig_len(s) - 1] == Boolean::True,
    decreases s.len(),
{
    lemma_sig_len_le_len(s);
    if s.len() > 0 && s.last() != Boolean::True {
        lemma_sig_len_bits(s.drop_last());
        assert(forall|i: int|
            sig_len(s) <= i < s.len() - 1 ==> s[i] == s.drop_last()[i] && s[i] == Boolean::False);
    }
}

/// The significant length is the one cut below which the top digit is
/// `True` and above which every digit is `False`.
pub proof fn lemma_sig_len_unique(s: Seq<Boolean>, n: nat)
    requires
        n <= s.len(),
        n > 0 ==> s[n - 1] == Boolean::True,
        forall|i: int| n <= i < s.len() ==> s[i] == Boolean::False,
    ensures
        sig_len(s) == n,
    decreases s.len(),
{
    if s.len() > 0 && s.last() != Boolean::True {
        lemma_sig_len_unique(s.drop_last(), n);
    }
}

/// Appending a digit on top adds its weight at the old length.
pub proof fn lemma_value_push(s: Seq<Boolean>, b: Boolean)
    ensures
        value_of(s.push(b)) == value_of(s) + (if b == Boolean::True {
            pow2(s.len())
        } else {
            0nat
        }),
    decreases s.len(),
{
    if s.len() == 0 {
        assert(s.push(b).drop_first() =~= Seq::<Boolean>::empty());
        assert(value_of(s.push(b)) == (if b == Boolean::True {
            1nat
        } else {
            0nat
        }) + 2 * value_of(s.push(b).drop_first()));
        assert(pow2(0) == 1) by {
            lemma2_to64();
        }
    } else {
        let d = s.drop_first();
        assert(s.push(b).drop_first() =~= d.push(b));
        lemma_value_push(d, b);
        lemma_pow2_unfold(s.len());
        assert(value_of(s.push(b)) == (if s[0] == Boolean::True {
            1nat
        } else {
            0nat
        }) + 2 * value_of(d.push(b)));
        assert(value_of(s) == (if s[0] == Boolean::True {
            1nat
        } else {
            0nat
        }) + 2 * value_of(d));
    }
}

/// A digit sequence is worth less than two to its stored length.
pub proof fn lemma_value_bound(s: Seq<Boolean>)
    ensures
        value_of(s) < pow2(s.len()),
    decreases s.len(),
{
    if s.len() == 0 {
        assert(pow2(0) == 1) by {
            lemma2_to64();
        }
    } else {
        lemma_value_bound(s.drop_first());
        lemma_pow2_unfold(s.len());
    }
}

/// Splitting a sequence at any cut splits its value, the upper part
/// weighted by two to the cut.
pub proof fn lemma_value_split(s: Seq<Boolean>, n: nat)
    requires
        n <= s.len(),
    ensures
        value_of(s) == value_of(s.take(n as int)) + pow2(n) * value_of(s.skip(n as int)),
    decreases n,
{
    if n == 0 {
        assert(s.take(0) =~= Seq::<Boolean>::empty());
        assert(s.skip(0) =~= s);
        assert(pow2(0) == 1) by {
            lemma2_to64();
        }
    } else {
        let m = (n - 1) as nat;
        lemma_value_split(s, m);
        assert(s.take(n as int) =~= s.take(m as int).push(s[m as int]));
        lemma_value_push(s.take(m as int), s[m as int]);
        assert(s.skip(m as int).drop_first() =~= s.skip(n as int));
        assert(value_of(s.skip(m as int)) == (if s[m as int] == Boolean::True {
            1nat
        } else {
            0nat
        }) + 2 * value_of(s.skip(n as int)));
        lemma_pow2_unfold(n);
        let low = value_of(s.take(m as int));
        let hi = value_of(s.skip(n as int));
        if s[m as int] == Boolean::True {
            assert(value_of(s) == low + pow2(m) * (1 + 2 * hi));
            assert(pow2(m) * (1 + 2 * hi) == pow2(m) + 2 * pow2(m) * hi) by (nonlinear_arith);
            assert(2 * pow2(m) * hi == pow2(n) * hi) by (nonlinear_arith)
                requires
                    pow2(n) == 2 * pow2(m),
            ;
        } else {
            assert(value_of(s) == low + pow2(m) * (2 * hi));
            assert(pow2(m) * (2 * hi) == pow2(n) * hi) by (nonlinear_arith)
                requires
                    pow2(n) == 2 * pow2(m),
            ;
        }
    }
}

/// Trimming the trailing `False` digits keeps the value.
pub proof fn lemma_value_trim(s: Seq<Boolean>)
    ensures
        value_of(trim_bits(s)) == value_of(s),
    decreases s.len(),
{
    lemma_sig_len_le_len(s);
    if sig_len(s) == s.len() {
        assert(trim_bits(s) =~= s);
    } else {
        let d = s.drop_last();
        assert(s.last() != Boolean::True) by {
            lemma_sig_len_bits(s);
        }
        assert(s =~= d.push(s.last()));
        lemma_value_push(d, s.last());
        lemma_value_trim(d);
        lemma_sig_len_le_len(d);
        assert(trim_bits(s) =~= trim_bits(d));
    }
}

/// A sequence whose significant length is positive is worth at least two
/// to one less than that length; one with significant length zero is worth
/// nothing.
pub proof fn lemma_value_sig(s: Seq<Boolean>)
    ensures
        sig_len(s) == 0 ==> value_of(s) == 0,
        sig_len(s) > 0 ==> value_of(s) >= pow2((sig_len(s) - 1) as nat),
{
    lemma_sig_len_le_len(s);
    lemma_value_trim(s);
    if sig_len(s) == 0 {
        assert(trim_bits(s) =~= Seq::<Boolean>::empty());
    } else {
        let m = (sig_len(s) - 1) as nat;
        lemma_value_split(s, m);
        lemma_sig_len_bits(s);
        assert(bit(s, m as int));
        assert(value_of(s.skip(m as int)) >= 1) by {
            assert(s.skip(m as int)[0] == Boolean::True);
        }
        assert(pow2(m) * value_of(s.skip(m as int)) >= pow2(m)) by (nonlinear_arith)
            requires
                value_of(s.skip(m as int)) >= 1,
                pow2(m) >= 0,
        ;
    }
}

/// The canonical sequence of a value is trimmed and is worth that value.
pub proof fn lemma_canon(v: nat)
    ensures
        value_of(canon(v)) == v,
        is_trimmed(canon(v)),
        v == 0 <==> canon(v).len() == 0,
    decreases v,
{
    if v > 0 {
        lemma_canon(v / 2);
        let c = canon(v);
        assert(c.drop_first() =~= canon(v / 2));
        assert(value_of(c) == (if v % 2 == 1 {
            1nat
        } else {
            0nat
        }) + 2 * (v / 2));
        assert(v == 2 * (v / 2) + v % 2) by {
            vstd::arithmetic::div_mod::lemma_fundamental_div_mod(v as int, 2);
        }
        if canon(v / 2).len() == 0 {
            assert(v / 2 == 0);
            assert(v % 2 == 1) by {
                vstd::arithmetic::div_mod::lemma_fundamental_div_mod(v as int, 2);
            }
            assert(c.last() == Boolean::True);
        } else {
            assert(c.last() == canon(v / 2).last());
            assert(canon(v / 2).last() == Boolean::True) by {
                lemma_sig_len_bits(canon(v / 2));
            }
        }
        assert(sig_len(c) == c.len()) by {
            lemma_sig_len_unique(c, c.len());
        }
    }
}

/// A trimmed sequence is the canonical sequence of its value: the value
/// determines the digits.
pub proof fn lemma_canon_complete(s: Seq<Boolean>)
    requires
        is_trimmed(s),
    ensures
        canon(value_of(s)) == s,
    decreases s.len(),
{
    let v = value_of(s);
    if s.len() == 0 {
        assert(canon(0) =~= s);
    } else {
        let d = s.drop_first();
        assert(is_trimmed(d)) by {
            lemma_sig_len_bits(s);
            lemma_sig_len_le_len(d);
            if d.len() > 0 {
                assert(d.last() == s.last());
                lemma_sig_len_unique(d, d.len());
            }
        }
        assert(v == (if s[0] == Boolean::True {
            1nat
        } else {
            0nat
        }) + 2 * value_of(d));
        if d.len() == 0 {
            assert(s.last() == s[0]);
            assert(s[0] == Boolean::True) by {
                lemma_sig_len_bits(s);
            }
            assert(v == 1);
            assert(canon(1) =~= seq![Boolean::True] + canon(0));
            assert(canon(v) =~= s);
        } else {
            assert(value_of(d) > 0) by {
                lemma_value_sig(d);
                lemma_pow2_pos((sig_len(d) - 1) as nat);
            }
            assert(v > 0);
            assert(v % 2 == (if s[0] == Boolean::True {
                1int
            } else {
                0int
            }) && v / 2 == value_of(d)) by {
                vstd::arithmetic::div_mod::lemma_fundamental_div_mod_converse(
                    v as int,
                    2,
                    value_of(d) as int,
                    if s[0] == Boolean::True {
                        1int
                    } else {
                        0int
                    },
                );
            }
            lemma_canon_complete(d);
            assert(canon(v) =~= seq![s[0]] + d);
            assert(canon(v) =~= s);
        }
    }
}

/// Two sequences that agree digit for digit (padding included) are worth
/// the same; two sequences worth the same agree digit for digit.
pub proof fn lemma_value_eq_iff_bits(s1: Seq<Boolean>, s2: Seq<Boolean>)
    ensures
        value_of(s1) == value_of(s2) <==> (forall|i: int| bit(s1, i) == bit(s2, i)),
{
    lemma_sig_len_bits(s1);
    lemma_sig_len_bits(s2);
    lemma_value_trim(s1);
    lemma_value_trim(s2);
    lemma_sig_len_le_len(s1);
    lemma_sig_len_le_len(s2);
    if forall|i: int| bit(s1, i) == bit(s2, i) {
        assert(sig_len(s1) == sig_len(s2)) by {
            let n1 = sig_len(s1);
            let n2 = sig_len(s2);
            if n1 > 0 {
                assert(bit(s1, n1 - 1));
            }
            if n2 > 0 {
                assert(bit(s2, n2 - 1));
            }
            assert(forall|i: int| n1 <= i ==> !bit(s1, i));
            assert(forall|i: int| n2 <= i ==> !bit(s2, i));
        }
        assert(trim_bits(s1) =~= trim_bits(s2)) by {
            assert(forall|i: int|
                0 <= i < sig_len(s1) ==> trim_bits(s1)[i] == trim_bits(s2)[i]) by {
                assert(forall|i: int| 0 <= i < sig_len(s1) ==> bit(s1, i) == (s1[i]
                    == Boolean::True) && bit(s2, i) == (s2[i] == Boolean::True));
            }
        }
    }
    if value_of(s1) == value_of(s2) {
        assert(is_trimmed(trim_bits(s1)) && is_trimmed(trim_bits(s2))) by {
            lemma_sig_len_unique(trim_bits(s1), sig_len(s1));
            lemma_sig_len_unique(trim_bits(s2), sig_len(s2));
        }
        lemma_canon_complete(trim_bits(s1));
        lemma_canon_complete(trim_bits(s2));
        assert(trim_bits(s1) == trim_bits(s2));
        assert(forall|i: int| bit(s1, i) == bit(trim_bits(s1), i)) by {
            lemma_bit_trim(s1);
        }
        assert(forall|i: int| bit(s2, i) == bit(trim_bits(s2), i)) by {
            lemma_bit_trim(s2);
        }
    }
}

/// Trimming changes no digit: positions past the cut were `False` already.
pub proof fn lemma_bit_trim(s: Seq<Boolean>)
    ensures
        forall|i: int| bit(trim_bits(s), i) == bit(s, i),
{
    lemma_sig_len_le_len(s);
    lemma_sig_len_bits(s);
    assert forall|i: int| bit(trim_bits(s), i) == bit(s, i) by {
        if 0 <= i < sig_len(s) {
            assert(trim_bits(s)[i] == s[i]);
        }
    }
}

/// Equal values mean equal trimmed forms, and conversely.
pub proof fn lemma_value_eq_iff_trim(s1: Seq<Boolean>, s2: Seq<Boolean>)
    ensures
        value_of(s1) == value_of(s2) <==> trim_bits(s1) == trim_bits(s2),
{
    lemma_value_trim(s1);
    lemma_value_trim(s2);
    if value_of(s1) == value_of(s2) {
        lemma_sig_len_le_len(s1);
        lemma_sig_len_le_len(s2);
        assert(is_trimmed(trim_bits(s1)) && is_trimmed(trim_bits(s2))) by {
            lemma_sig_len_bits(s1);
            lemma_sig_len_bits(s2);
            lemma_sig_len_unique(trim_bits(s1), sig_len(s1));
            lemma_sig_len_unique(trim_bits(s2), sig_len(s2));
        }
        lemma_canon_complete(trim_bits(s1));
        lemma_canon_complete(trim_bits(s2));
    }
}

/// A shorter significant length means a smaller value.
pub proof fn lemma_value_lt_of_sig_lt(s1: Seq<Boolean>, s2: Seq<Boolean>)
    requires
        sig_len(s1) < sig_len(s2),
    ensures
        value_of(s1) < value_of(s2),
{
    lemma_value_trim(s1);
    lemma_value_bound(trim_bits(s1));
    lemma_sig_len_le_len(s1);
    assert(trim_bits(s1).len() == sig_len(s1));
    lemma_value_sig(s2);
    if sig_len(s1) < sig_len(s2) - 1 {
        lemma_pow2_strictly_increases(sig_len(s1), (sig_len(s2) - 1) as nat);
    }
}

/// With equal significant lengths and equal digits above some position,
/// the sequence with the `True` digit at that position is worth more.
pub proof fn lemma_value_lt_at(s1: Seq<Boolean>, s2: Seq<Boolean>, j: nat)
    requires
        forall|i: int| i > j ==> bit(s1, i) == bit(s2, i),
        !bit(s1, j as int),
        bit(s2, j as int),
    ensures
        value_of(s1) < value_of(s2),
{
    let t1 = pad_to(s1, j + 1);
    let t2 = pad_to(s2, j + 1);
    lemma_pad_to(s1, j + 1);
    lemma_pad_to(s2, j + 1);
    lemma_value_split(t1, j);
    lemma_value_split(t2, j);
    assert(value_of(t1.skip(j as int)) == value_of(t2.skip(j as int)) - 1) by {
        assert(t1.skip(j as int).drop_first() =~= t1.skip(j + 1 as int));
        assert(t2.skip(j as int).drop_first() =~= t2.skip(j + 1 as int));
        assert(value_of(t1.skip(j + 1 as int)) == value_of(t2.skip(j + 1 as int))) by {
            lemma_value_eq_iff_bits(t1.skip(j + 1 as int), t2.skip(j + 1 as int));
            assert forall|i: int|
                #[trigger] bit(t1.skip(j + 1 as int), i) == bit(t2.skip(j + 1 as int), i) by {
                if i >= 0 {
                    assert(bit(t1.skip(j + 1 as int), i) == bit(t1, i + j + 1));
                    assert(bit(t2.skip(j + 1 as int), i) == bit(t2, i + j + 1));
                    assert(bit(t1, i + j + 1) == bit(t2, i + j + 1));
                }
            }
        }
        assert(t1.skip(j as int)[0] != Boolean::True);
        assert(t2.skip(j as int)[0] == Boolean::True);
    }
    assert(value_of(t1.take(j as int)) < pow2(j)) by {
        lemma_value_bound(t1.take(j as int));
    }
    let hi1 = value_of(t1.skip(j as int));
    let hi2 = value_of(t2.skip(j as int));
    assert(pow2(j) * hi2 == pow2(j) * hi1 + pow2(j)) by (nonlinear_arith)
        requires
            hi2 == hi1 + 1,
    ;
    assert(value_of(t2.take(j as int)) >= 0);
}

/// A sequence padded with `False` digits up to at least a given length.
pub open spec fn pad_to(s: Seq<Boolean>, n: nat) -> Seq<Boolean> {
    if s.len() >= n {
        s
    } else {
        s + Seq::new((n - s.len()) as nat, |i: int| Boolean::False)
    }
}

/// Padding keeps every digit and the value.
pub proof fn lemma_pad_to(s: Seq<Boolean>, n: nat)
    ensures
        pad_to(s, n).len() >= n,
        forall|i: int| bit(pad_to(s, n), i) == bit(s, i),
        value_of(pad_to(s, n)) == value_of(s),
{
    assert(forall|i: int| bit(pad_to(s, n), i) == bit(s, i));
    lemma_value_eq_iff_bits(pad_to(s, n), s);
}

/// The value of the lowest `n` digit positions, the sequence read as if
/// padded with `False` digits beyond its stored length.
pub open spec fn value_below(s: Seq<Boolean>, n: nat) -> nat
    decreases n,
{
    if n == 0 {
        0
    } else {
        value_below(s, (n - 1) as nat) + (if bit(s, n - 1) {
            pow2((n - 1) as nat)
        } else {
            0nat
        })
    }
}

/// Within the stored length, the lowest `n` positions are worth what the
/// prefix of length `n` is worth.
pub proof fn lemma_value_below_take(s: Seq<Boolean>, n: nat)
    requires
        n <= s.len(),
    ensures
        value_below(s, n) == value_of(s.take(n as int)),
    decreases n,
{
    if n == 0 {
        assert(s.take(0) =~= Seq::<Boolean>::empty());
    } else {
        let m = (n - 1) as nat;
        lemma_value_below_take(s, m);
        assert(s.take(n as int) =~= s.take(m as int).push(s[m as int]));
        lemma_value_push(s.take(m as int), s[m as int]);
    }
}

/// From the significant length up, taking more positions adds nothing: the
/// lowest `n` positions are worth the whole value.
pub proof fn lemma_value_below_full(s: Seq<Boolean>, n: nat)
    requires
        n >= sig_len(s),
    ensures
        value_below(s, n) == value_of(s),
    decreases n,
{
    lemma_sig_len_bits(s);
    if n == 0 {
        lemma_value_sig(s);
    } else if n == sig_len(s) {
        lemma_value_below_take(s, n);
        lemma_value_trim(s);
    } else {
        assert(!bit(s, n - 1));
        lemma_value_below_full(s, (n - 1) as nat);
    }
}

/// Taking more positions never lowers the worth of the prefix.
pub proof fn lemma_value_below_mono(s: Seq<Boolean>, m: nat, n: nat)
    requires
        m <= n,
    ensures
        value_below(s, m) <= value_below(s, n),
    decreases n,
{
    if m < n {
        lemma_value_below_mono(s, m, (n - 1) as nat);
    }
}

/// The lowest `n` positions are worth at most the whole value.
pub proof fn lemma_value_below_le(s: Seq<Boolean>, n: nat)
    ensures
        value_below(s, n) <= value_of(s),
{
    if n >= sig_len(s) {
        lemma_value_below_full(s, n);
    } else {
        lemma_value_below_mono(s, n, sig_len(s));
        lemma_value_below_full(s, sig_len(s));
    }
}

/// The digits of the bitwise conjunction, cut at the shorter significant
/// length: position by position it is the conjunction of the operands'
/// digits, everywhere.
pub open spec fn and_bits(a: Seq<Boolean>, b: Seq<Boolean>) -> Seq<Boolean> {
    Seq::new(
        min_nat(sig_len(a), sig_len(b)),
        |i: int| Boolean::of_bool(bit(a, i) && bit(b, i)),
    )
}

/// The digits of the bitwise disjunction, at the longer significant
/// length.
pub open spec fn or_bits(a: Seq<Boolean>, b: Seq<Boolean>) -> Seq<Boolean> {
    Seq::new(
        max_nat(sig_len(a), sig_len(b)),
        |i: int| Boolean::of_bool(bit(a, i) || bit(b, i)),
    )
}

/// The digits of the exclusive or over the longer significant length,
/// before trimming.
pub open spec fn xor_raw(a: Seq<Boolean>, b: Seq<Boolean>) -> Seq<Boolean> {
    Seq::new(
        max_nat(sig_len(a), sig_len(b)),
        |i: int| Boolean::of_bool(bit(a, i) != bit(b, i)),
    )
}

/// The exclusive or as returned: the raw digits with trailing `False`
/// digits removed.
pub open spec fn xor_bits(a: Seq<Boolean>, b: Seq<Boolean>) -> Seq<Boolean> {
    trim_bits(xor_raw(a, b))
}

/// Digit by digit, the conjunction holds everywhere: past the cut one
/// operand's digit is `False` anyway.
pub proof fn lemma_and_bits(a: Seq<Boolean>, b: Seq<Boolean>)
    ensures
        forall|i: int| #[trigger] bit(and_bits(a, b), i) == (bit(a, i) && bit(b, i)),
{
    lemma_sig_len_bits(a);
    lemma_sig_len_bits(b);
    assert forall|i: int| #[trigger] bit(and_bits(a, b), i) == (bit(a, i) && bit(b, i)) by {
        if 0 <= i < and_bits(a, b).len() {
            assert(and_bits(a, b)[i] == Boolean::of_bool(bit(a, i) && bit(b, i)));
        } else {
            assert(!bit(a, i) || !bit(b, i));
        }
    }
}

/// Digit by digit, the disjunction holds everywhere.
pub proof fn lemma_or_bits(a: Seq<Boolean>, b: Seq<Boolean>)
    ensures
        forall|i: int| #[trigger] bit(or_bits(a, b), i) == (bit(a, i) || bit(b, i)),
{
    lemma_sig_len_bits(a);
    lemma_sig_len_bits(b);
    assert forall|i: int| #[trigger] bit(or_bits(a, b), i) == (bit(a, i) || bit(b, i)) by {
        if 0 <= i < or_bits(a, b).len() {
            assert(or_bits(a, b)[i] == Boolean::of_bool(bit(a, i) || bit(b, i)));
        } else {
            assert(!bit(a, i) && !bit(b, i));
        }
    }
}

/// Digit by digit, the exclusive or holds everywhere, trimmed or not.
pub proof fn lemma_xor_bits(a: Seq<Boolean>, b: Seq<Boolean>)
    ensures
        forall|i: int| #[trigger] bit(xor_raw(a, b), i) == (bit(a, i) != bit(b, i)),
        forall|i: int| #[trigger] bit(xor_bits(a, b), i) == (bit(a, i) != bit(b, i)),
{
    lemma_sig_len_bits(a);
    lemma_sig_len_bits(b);
    assert forall|i: int| #[trigger] bit(xor_raw(a, b), i) == (bit(a, i) != bit(b, i)) by {
        if 0 <= i < xor_raw(a, b).len() {
            assert(xor_raw(a, b)[i] == Boolean::of_bool(bit(a, i) != bit(b, i)));
        } else {
            assert(!bit(a, i) && !bit(b, i));
        }
    }
    lemma_bit_trim(xor_raw(a, b));
    assert forall|i: int| #[trigger] bit(xor_bits(a, b), i) == (bit(a, i) != bit(b, i)) by {
        assert(bit(trim_bits(xor_raw(a, b)), i) == bit(xor_raw(a, b), i));
    }
}

/// A sequence is worth less than two to its significant length.
pub proof fn lemma_value_bound_sig(s: Seq<Boolean>)
    ensures
        value_of(s) < pow2(sig_len(s)),
{
    lemma_value_trim(s);
    lemma_value_bound(trim_bits(s));
    lemma_sig_len_le_len(s);
}

/// A sequence worth less than two to the `n` has significant length at
/// most `n`.
pub proof fn lemma_sig_le_of_value_lt(s: Seq<Boolean>, n: nat)
    requires
        value_of(s) < pow2(n),
    ensures
        sig_len(s) <= n,
{
    if sig_len(s) > n {
        lemma_value_sig(s);
        if n < sig_len(s) - 1 {
            lemma_pow2_strictly_increases(n, (sig_len(s) - 1) as nat);
        }
    }
}

/// Dropping the lowest digit halves the value, rounding down.
pub proof fn lemma_value_half(s: Seq<Boolean>)
    requires
        s.len() > 0,
    ensures
        value_of(s.skip(1)) == value_of(s) / 2,
{
    assert(s.skip(1) =~= s.drop_first());
    let b: int = if s[0] == Boolean::True {
        1
    } else {
        0
    };
    assert(value_of(s) == b + 2 * value_of(s.drop_first()));
    vstd::arithmetic::div_mod::lemma_fundamental_div_mod_converse_div(
        value_of(s) as int,
        2,
        value_of(s.drop_first()) as int,
        b,
    );
}

/// A trimmed sequence stays trimmed when its low digits are dropped.
pub proof fn lemma_trimmed_skip(s: Seq<Boolean>, k: nat)
    requires
        is_trimmed(s),
        k <= s.len(),
    ensures
        is_trimmed(s.skip(k as int)),
{
    let t = s.skip(k as int);
    if t.len() > 0 {
        lemma_sig_len_bits(s);
        assert(t[t.len() - 1] == s[s.len() - 1]);
        lemma_sig_len_unique(t, t.len() as nat);
    }
}

/// Prepending `k` zero digits multiplies the value by two to the `k`.
pub proof fn lemma_value_shift(k: nat, s: Seq<Boolean>)
    ensures
        value_of(Seq::new(k, |i: int| Boolean::False) + s) == pow2(k) * value_of(s),
{
    let t = Seq::new(k, |i: int| Boolean::False) + s;
    lemma_value_split(t, k);
    assert(value_of(t.take(k as int)) == 0) by {
        lemma_value_eq_iff_bits(t.take(k as int), Seq::<Boolean>::empty());
        assert(forall|i: int| !bit(t.take(k as int), i));
    }
    assert(t.skip(k as int) =~= s);
}

} // verus!

