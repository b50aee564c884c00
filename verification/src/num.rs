//! The magnitude type: a non-negative integer stored as an ordered
//! sequence of logic digits, least-significant first, together with its
//! comparison, bitwise, shift and arithmetic operators.

use crate::bits::{
    and_bits, bit, canon, is_trimmed, lemma_canon, lemma_sig_le_of_value_lt, lemma_sig_len_bits,
    lemma_sig_len_le_len, lemma_sig_len_unique, lemma_trimmed_skip, lemma_value_below_full,
    lemma_value_below_le, lemma_value_bound, lemma_value_bound_sig, lemma_value_eq_iff_bits,
    lemma_value_half, lemma_value_lt_at, lemma_value_lt_of_sig_lt, lemma_value_push,
    lemma_value_shift, lemma_value_sig, lemma_value_split, lemma_value_trim, max_nat, min_nat,
    or_bits, sig_len, trim_bits, value_below, value_of, xor_bits, xor_raw,
};
use crate::Boolean;
use core::cmp::Ordering;
use vstd::arithmetic::div_mod::*;
use vstd::arithmetic::power2::*;
use vstd::prelude::*;

verus! {

/// An arbitrary-precision unsigned integer. Digit `i` of the backing
/// vector holds bit `i` of the number; trailing `False` digits may be
/// stored, and never change the value the digits stand for.
#[derive(Debug, Clone)]
pub struct UInt {
    binary: Vec<Boolean>,
}

impl View for UInt {
    type V = Seq<Boolean>;

    closed spec fn view(&self) -> Seq<Boolean> {
        self.binary@
    }
}

impl UInt {
    /// Wraps a raw digit sequence, stored exactly as given.
    pub fn new(binary: Vec<Boolean>) -> (r: UInt)
        ensures
            r@ == binary@,
    {
        UInt { binary }
    }

    /// The backing digit sequence, for inspection.
    pub fn binary(&self) -> (r: &Vec<Boolean>)
        ensures
            r@ == self@,
    {
        &self.binary
    }

    /// How many digits are stored, trailing `False` digits included.
    pub fn bit_len(&self) -> (r: usize)
        ensures
            r == self@.len(),
    {
        self.binary.len()
    }

    /// The significant length: index of the highest `True` digit plus one,
    /// or zero when no digit is `True`.
    pub fn max_bit_digit(&self) -> (r: usize)
        ensures
            r as nat == sig_len(self@),
    {
        let ln = self.binary.len();
        let mut i: usize = ln;
        while i > 0
            invariant
                i <= ln,
                ln == self@.len(),
                forall|j: int| i <= j < ln ==> self@[j] == Boolean::False,
            decreases i,
        {
            i = i - 1;
            match self.binary[i] {
                Boolean::True => {
                    proof {
                        lemma_sig_len_unique(self@, (i + 1) as nat);
                    }
                    return i + 1;
                },
                Boolean::False => {},
            }
        }
        proof {
            lemma_sig_len_unique(self@, 0);
        }
        0
    }

    /// A copy holding only the significant prefix: the trimmed form.
    pub fn trim(&self) -> (r: UInt)
        ensures
            r@ == trim_bits(self@),
            is_trimmed(r@),
            value_of(r@) == value_of(self@),
    {
        proof {
            lemma_sig_len_le_len(self@);
            lemma_sig_len_bits(self@);
            lemma_sig_len_unique(trim_bits(self@), sig_len(self@));
            lemma_value_trim(self@);
        }
        let n = self.max_bit_digit();
        let mut out: Vec<Boolean> = Vec::new();
        let mut i: usize = 0;
        while i < n
            invariant
                i <= n,
                n as nat == sig_len(self@),
                sig_len(self@) <= self@.len(),
                out@ == self@.take(i as int),
            decreases n - i,
        {
            out.push(self.binary[i]);
            proof {
                assert(self@.take(i as int).push(self@[i as int]) =~= self@.take(i + 1));
            }
            i = i + 1;
        }
        UInt { binary: out }
    }

    /// Truncates the stored digits to the significant prefix, in place.
    pub fn trim_mut(&mut self)
        ensures
            final(self)@ == trim_bits(old(self)@),
            is_trimmed(final(self)@),
            value_of(final(self)@) == value_of(old(self)@),
    {
        proof {
            lemma_sig_len_le_len(self@);
            lemma_sig_len_bits(self@);
            lemma_sig_len_unique(trim_bits(self@), sig_len(self@));
            lemma_value_trim(self@);
        }
        let n = self.max_bit_digit();
        self.binary.truncate(n);
        proof {
            assert(self@ =~= trim_bits(old(self)@));
        }
    }

    /// Digit `i`, read past the stored length as `False`.
    fn digit(&self, i: usize) -> (r: Boolean)
        ensures
            r == Boolean::of_bool(bit(self@, i as int)),
    {
        if i < self.binary.len() {
            self.binary[i]
        } else {
            Boolean::False
        }
    }

    /// Builds the number a native unsigned integer stands for: digit `i`
    /// of the result is bit `i` of the argument, and the result is
    /// trimmed, so zero becomes the empty sequence.
    pub fn from_native(x: u64) -> (r: UInt)
        ensures
            r@ == canon(x as nat),
            is_trimmed(r@),
            value_of(r@) == x as nat,
            sig_len(r@) <= 64,
    {
        let mut out: Vec<Boolean> = Vec::new();
        let mut rest: u64 = x;
        while rest > 0
            invariant
                canon(x as nat) == out@ + canon(rest as nat),
            decreases rest,
        {
            let b = if rest % 2 == 1 {
                Boolean::True
            } else {
                Boolean::False
            };
            proof {
                assert(canon(rest as nat) == seq![b] + canon((rest / 2) as nat));
                assert(out@ + canon(rest as nat) =~= out@.push(b) + canon((rest / 2) as nat));
            }
            out.push(b);
            rest = rest / 2;
        }
        proof {
            assert(canon(x as nat) =~= out@);
            lemma_canon(x as nat);
            lemma2_to64();
            lemma_sig_le_of_value_lt(out@, 64);
        }
        UInt { binary: out }
    }

    /// Reads the digits back as a native unsigned integer: the low sixty-
    /// four digit positions, so a value too wide for the native word keeps
    /// only its remainder by two to the native width.
    pub fn to_native(&self) -> (r: u64)
        ensures
            r as nat == value_of(self@) % pow2(64),
            value_of(self@) < pow2(64) ==> r as nat == value_of(self@),
    {
        proof {
            lemma2_to64();
        }
        let ln = self.binary.len();
        let n: usize = if ln > 64 {
            64
        } else {
            ln
        };
        let mut r: u64 = 0;
        let mut i: usize = n;
        while i > 0
            invariant
                i <= n,
                n <= 64,
                n <= self@.len(),
                r as nat == value_of(self@.subrange(i as int, n as int)),
                (r as nat) < pow2((n - i) as nat),
            decreases i,
        {
            i = i - 1;
            let b = self.binary[i];
            proof {
                assert(self@.subrange(i as int, n as int).drop_first() =~= self@.subrange(
                    i + 1,
                    n as int,
                ));
                assert(value_of(self@.subrange(i as int, n as int)) == (if self@[i as int]
                    == Boolean::True {
                    1nat
                } else {
                    0nat
                }) + 2 * value_of(self@.subrange(i + 1, n as int)));
                lemma_pow2_unfold((n - i) as nat);
                if (n - i) < 64 {
                    lemma_pow2_strictly_increases((n - i) as nat, 64);
                }
                lemma2_to64();
            }
            r = 2 * r + (match b {
                Boolean::True => 1u64,
                Boolean::False => 0u64,
            });
        }
        proof {
            assert(self@.subrange(0, n as int) =~= self@.take(n as int));
            lemma_value_split(self@, n as nat);
            lemma_value_bound(self@.take(n as int));
            if ln <= 64 {
                assert(self@.take(n as int) =~= self@);
                if ln < 64 {
                    lemma_pow2_strictly_increases(ln as nat, 64);
                }
                lemma_small_mod(value_of(self@), pow2(64));
            } else {
                assert(value_of(self@) == value_of(self@.take(64)) + pow2(64) * value_of(
                    self@.skip(64),
                ));
                lemma_fundamental_div_mod_converse_mod(
                    value_of(self@) as int,
                    pow2(64) as int,
                    value_of(self@.skip(64)) as int,
                    value_of(self@.take(64)) as int,
                );
            }
        }
        r
    }
}


impl PartialEq for UInt {
    /// Two numbers are equal when their digits agree over their common
    /// significant length, the significant lengths being equal: that is,
    /// when they stand for the same value.
    fn eq(&self, other: &Self) -> (r: bool) {
        let n1 = self.max_bit_digit();
        let n2 = other.max_bit_digit();
        if n1 != n2 {
            proof {
                if n1 < n2 {
                    lemma_value_lt_of_sig_lt(self@, other@);
                } else {
                    lemma_value_lt_of_sig_lt(other@, self@);
                }
            }
            return false;
        }
        proof {
            lemma_sig_len_le_len(self@);
            lemma_sig_len_le_len(other@);
        }
        let mut i: usize = 0;
        while i < n1
            invariant
                i <= n1,
                n1 as nat == sig_len(self@),
                n1 as nat == sig_len(other@),
                n1 <= self@.len(),
                n1 <= other@.len(),
                forall|j: int| 0 <= j < i ==> bit(self@, j) == bit(other@, j),
            decreases n1 - i,
        {
            let b1 = self.binary[i];
            let b2 = other.binary[i];
            if b1 != b2 {
                proof {
                    lemma_value_eq_iff_bits(self@, other@);
                    assert(bit(self@, i as int) != bit(other@, i as int));
                }
                return false;
            }
            i = i + 1;
        }
        proof {
            lemma_sig_len_bits(self@);
            lemma_sig_len_bits(other@);
            lemma_value_eq_iff_bits(self@, other@);
            assert forall|j: int| bit(self@, j) == bit(other@, j) by {
                if 0 <= j < n1 {
                } else {
                    assert(!bit(self@, j) && !bit(other@, j));
                }
            }
        }
        true
    }
}

impl vstd::std_specs::cmp::PartialEqSpecImpl for UInt {
    open spec fn obeys_eq_spec() -> bool {
        true
    }

    open spec fn eq_spec(&self, other: &UInt) -> bool {
        value_of(self@) == value_of(other@)
    }
}

impl Eq for UInt {}

impl PartialOrd for UInt {
    /// Numbers are ordered by significant length first, then digit by
    /// digit from the most significant end down: the order of the values
    /// they stand for.
    fn partial_cmp(&self, other: &Self) -> (r: Option<Ordering>) {
        let n1 = self.max_bit_digit();
        let n2 = other.max_bit_digit();
        if n1 < n2 {
            proof {
                lemma_value_lt_of_sig_lt(self@, other@);
            }
            return Some(Ordering::Less);
        }
        if n2 < n1 {
            proof {
                lemma_value_lt_of_sig_lt(other@, self@);
            }
            return Some(Ordering::Greater);
        }
        proof {
            lemma_sig_len_le_len(self@);
            lemma_sig_len_le_len(other@);
            lemma_sig_len_bits(self@);
            lemma_sig_len_bits(other@);
        }
        let mut i: usize = n1;
        while i > 0
            invariant
                i <= n1,
                n1 as nat == sig_len(self@),
                n1 as nat == sig_len(other@),
                n1 <= self@.len(),
                n1 <= other@.len(),
                forall|j: int| j >= i ==> bit(self@, j) == bit(other@, j),
            decreases i,
        {
            i = i - 1;
            let b1 = self.binary[i];
            let b2 = other.binary[i];
            if b1 != b2 {
                match b1 {
                    Boolean::True => {
                        proof {
                            lemma_value_lt_at(other@, self@, i as nat);
                        }
                        return Some(Ordering::Greater);
                    },
                    Boolean::False => {
                        proof {
                            lemma_value_lt_at(self@, other@, i as nat);
                        }
                        return Some(Ordering::Less);
                    },
                }
            }
            proof {
                assert(bit(self@, i as int) == bit(other@, i as int));
            }
        }
        proof {
            lemma_value_eq_iff_bits(self@, other@);
            assert(forall|j: int| bit(self@, j) == bit(other@, j));
        }
        Some(Ordering::Equal)
    }
}

impl vstd::std_specs::cmp::PartialOrdSpecImpl for UInt {
    open spec fn obeys_partial_cmp_spec() -> bool {
        true
    }

    open spec fn partial_cmp_spec(&self, other: &UInt) -> Option<Ordering> {
        if value_of(self@) < value_of(other@) {
            Some(Ordering::Less)
        } else if value_of(self@) == value_of(other@) {
            Some(Ordering::Equal)
        } else {
            Some(Ordering::Greater)
        }
    }
}

impl From<u64> for UInt {
    /// The number a native unsigned integer stands for, as `from_native`
    /// builds it.
    fn from(n: u64) -> (r: UInt) {
        UInt::from_native(n)
    }
}

/// The conversion's exact contract lives on `from_native`, which the
/// `From` implementation calls; nothing is claimed through the trait's
/// own specification, since a digit vector cannot be written down at the
/// specification level.
impl vstd::std_specs::convert::FromSpecImpl<u64> for UInt {
    open spec fn obeys_from_spec() -> bool {
        false
    }

    open spec fn from_spec(v: u64) -> UInt {
        arbitrary()
    }
}

impl From<UInt> for u64 {
    /// The native unsigned integer read back from the digits, as
    /// `to_native` reads it.
    fn from(n: UInt) -> (r: u64) {
        n.to_native()
    }
}

/// The conversion's exact contract lives on `to_native`, which the
/// `From` implementation calls; nothing is claimed through the trait's
/// own specification.
impl vstd::std_specs::convert::FromSpecImpl<UInt> for u64 {
    open spec fn obeys_from_spec() -> bool {
        false
    }

    open spec fn from_spec(v: UInt) -> u64 {
        arbitrary()
    }
}

impl UInt {
    /// Bitwise conjunction: digits are combined over the shorter
    /// significant length, and the result is cut there, digits beyond it
    /// dropped.
    pub fn bitand(&self, rhs: &UInt) -> (r: UInt)
        ensures
            r@ == and_bits(self@, rhs@),
    {
        let n1 = self.max_bit_digit();
        let n2 = rhs.max_bit_digit();
        let n = if n1 <= n2 {
            n1
        } else {
            n2
        };
        let mut out: Vec<Boolean> = Vec::new();
        let mut i: usize = 0;
        while i < n
            invariant
                i <= n,
                n as nat == min_nat(sig_len(self@), sig_len(rhs@)),
                out@.len() == i,
                forall|j: int| 0 <= j < i ==> out@[j] == and_bits(self@, rhs@)[j],
            decreases n - i,
        {
            let b = self.digit(i).bitand(rhs.digit(i));
            out.push(b);
            i = i + 1;
        }
        proof {
            assert(out@ =~= and_bits(self@, rhs@));
        }
        UInt { binary: out }
    }

    /// In-place bitwise conjunction: the receiver's digits are replaced by
    /// those of the conjunction.
    pub fn bitand_assign(&mut self, rhs: &UInt)
        ensures
            final(self)@ == and_bits(old(self)@, rhs@),
    {
        let r = self.bitand(rhs);
        *self = r;
    }

    /// Bitwise disjunction: digits are combined over the longer
    /// significant length.
    pub fn bitor(&self, rhs: &UInt) -> (r: UInt)
        ensures
            r@ == or_bits(self@, rhs@),
    {
        let n1 = self.max_bit_digit();
        let n2 = rhs.max_bit_digit();
        let n = if n1 <= n2 {
            n2
        } else {
            n1
        };
        let mut out: Vec<Boolean> = Vec::new();
        let mut i: usize = 0;
        while i < n
            invariant
                i <= n,
                n as nat == max_nat(sig_len(self@), sig_len(rhs@)),
                out@.len() == i,
                forall|j: int| 0 <= j < i ==> out@[j] == or_bits(self@, rhs@)[j],
            decreases n - i,
        {
            let b = self.digit(i).bitor(rhs.digit(i));
            out.push(b);
            i = i + 1;
        }
        proof {
            assert(out@ =~= or_bits(self@, rhs@));
        }
        UInt { binary: out }
    }

    /// In-place bitwise disjunction.
    pub fn bitor_assign(&mut self, rhs: &UInt)
        ensures
            final(self)@ == or_bits(old(self)@, rhs@),
    {
        let r = self.bitor(rhs);
        *self = r;
    }

    /// Bitwise exclusive or: digits are combined over the longer
    /// significant length, and the result is trimmed before it is
    /// returned.
    pub fn bitxor(&self, rhs: &UInt) -> (r: UInt)
        ensures
            r@ == xor_bits(self@, rhs@),
    {
        let n1 = self.max_bit_digit();
        let n2 = rhs.max_bit_digit();
        let n = if n1 <= n2 {
            n2
        } else {
            n1
        };
        let mut out: Vec<Boolean> = Vec::new();
        let mut i: usize = 0;
        while i < n
            invariant
                i <= n,
                n as nat == max_nat(sig_len(self@), sig_len(rhs@)),
                out@.len() == i,
                forall|j: int| 0 <= j < i ==> out@[j] == xor_raw(self@, rhs@)[j],
            decreases n - i,
        {
            let b = self.digit(i).bitxor(rhs.digit(i));
            out.push(b);
            i = i + 1;
        }
        proof {
            assert(out@ =~= xor_raw(self@, rhs@));
        }
        let mut r = UInt { binary: out };
        r.trim_mut();
        r
    }

    /// In-place bitwise exclusive or; the receiver ends up trimmed.
    pub fn bitxor_assign(&mut self, rhs: &UInt)
        ensures
            final(self)@ == xor_bits(old(self)@, rhs@),
    {
        let r = self.bitxor(rhs);
        *self = r;
    }

    /// The digits shifted up by `k` places: `k` `False` digits ahead of
    /// the stored digits.
    fn shifted(&self, k: usize) -> (r: UInt)
        requires
            k + self@.len() <= usize::MAX,
        ensures
            r@ == Seq::new(k as nat, |i: int| Boolean::False) + self@,
            value_of(r@) == pow2(k as nat) * value_of(self@),
    {
        let mut out: Vec<Boolean> = Vec::new();
        let mut i: usize = 0;
        while i < k
            invariant
                i <= k,
                out@ == Seq::new(i as nat, |j: int| Boolean::False),
            decreases k - i,
        {
            out.push(Boolean::False);
            proof {
                assert(out@ =~= Seq::new((i + 1) as nat, |j: int| Boolean::False));
            }
            i = i + 1;
        }
        let ln = self.binary.len();
        let mut j: usize = 0;
        while j < ln
            invariant
                j <= ln,
                ln == self@.len(),
                k + ln <= usize::MAX,
                out@ == Seq::new(k as nat, |t: int| Boolean::False) + self@.take(j as int),
            decreases ln - j,
        {
            out.push(self.binary[j]);
            proof {
                assert(out@ =~= Seq::new(k as nat, |t: int| Boolean::False) + self@.take(j + 1));
            }
            j = j + 1;
        }
        proof {
            assert(out@ =~= Seq::new(k as nat, |t: int| Boolean::False) + self@);
            lemma_value_shift(k as nat, self@);
        }
        UInt { binary: out }
    }

    /// Left shift: the shift amount is a number too; it is read back as a
    /// native integer, so its significant length must fit the native
    /// width, and the widened digit sequence must still be storable.
    pub fn shl(&self, rhs: &UInt) -> (r: UInt)
        requires
            sig_len(rhs@) <= 64,
            value_of(rhs@) + self@.len() <= usize::MAX,
        ensures
            r@ == Seq::new(value_of(rhs@), |i: int| Boolean::False) + self@,
            value_of(r@) == pow2(value_of(rhs@)) * value_of(self@),
    {
        proof {
            lemma_value_bound_sig(rhs@);
            if sig_len(rhs@) < 64 {
                lemma_pow2_strictly_increases(sig_len(rhs@), 64);
            }
            lemma2_to64();
        }
        let k64 = rhs.to_native();
        let k = k64 as usize;
        self.shifted(k)
    }

    /// In-place left shift.
    pub fn shl_assign(&mut self, rhs: &UInt)
        requires
            sig_len(rhs@) <= 64,
            value_of(rhs@) + old(self)@.len() <= usize::MAX,
        ensures
            final(self)@ == Seq::new(value_of(rhs@), |i: int| Boolean::False) + old(self)@,
            value_of(final(self)@) == pow2(value_of(rhs@)) * value_of(old(self)@),
    {
        let r = self.shl(rhs);
        *self = r;
    }

    /// Right shift: drops the shifted-out low digits; a shift past the
    /// stored length leaves the empty sequence.
    pub fn shr(&self, rhs: &UInt) -> (r: UInt)
        requires
            sig_len(rhs@) <= 64,
        ensures
            r@ == self@.skip(min_nat(value_of(rhs@), self@.len()) as int),
    {
        proof {
            lemma_value_bound_sig(rhs@);
            if sig_len(rhs@) < 64 {
                lemma_pow2_strictly_increases(sig_len(rhs@), 64);
            }
            lemma2_to64();
        }
        let k64 = rhs.to_native();
        let ln = self.binary.len();
        let d: usize = if k64 >= ln as u64 {
            ln
        } else {
            k64 as usize
        };
        let mut out: Vec<Boolean> = Vec::new();
        let mut i: usize = d;
        while i < ln
            invariant
                d <= i <= ln,
                ln == self@.len(),
                out@ == self@.subrange(d as int, i as int),
            decreases ln - i,
        {
            out.push(self.binary[i]);
            proof {
                assert(out@ =~= self@.subrange(d as int, i + 1));
            }
            i = i + 1;
        }
        proof {
            assert(out@ =~= self@.skip(min_nat(value_of(rhs@), self@.len()) as int));
        }
        UInt { binary: out }
    }

    /// In-place right shift.
    pub fn shr_assign(&mut self, rhs: &UInt)
        requires
            sig_len(rhs@) <= 64,
        ensures
            final(self)@ == old(self)@.skip(min_nat(value_of(rhs@), old(self)@.len()) as int),
    {
        let r = self.shr(rhs);
        *self = r;
    }
}

impl UInt {
    /// Addition, by ripple carry: digit `i` of the sum is the exclusive
    /// or of the operands' digits and the carry in, the carry out their
    /// majority, walked one digit past the longer significant length so
    /// the final carry lands in the sum. The result is trimmed.
    pub fn add(&self, rhs: &UInt) -> (r: UInt)
        requires
            sig_len(self@) < usize::MAX,
            sig_len(rhs@) < usize::MAX,
        ensures
            is_trimmed(r@),
            value_of(r@) == value_of(self@) + value_of(rhs@),
    {
        let n1 = self.max_bit_digit();
        let n2 = rhs.max_bit_digit();
        let n = if n1 <= n2 {
            n2
        } else {
            n1
        };
        let mut out: Vec<Boolean> = Vec::new();
        let mut carry = Boolean::False;
        let mut i: usize = 0;
        while i <= n
            invariant
                i <= n + 1,
                n < usize::MAX,
                n as nat == max_nat(sig_len(self@), sig_len(rhs@)),
                out@.len() == i,
                value_of(out@) + (if carry == Boolean::True {
                    pow2(i as nat)
                } else {
                    0nat
                }) == value_below(self@, i as nat) + value_below(rhs@, i as nat),
            decreases n + 1 - i,
        {
            let a = self.digit(i);
            let b = rhs.digit(i);
            let s = a.bitxor(b).bitxor(carry);
            let c2 = a.bitand(b).bitor(b.bitand(carry)).bitor(carry.bitand(a));
            proof {
                lemma_value_push(out@, s);
                lemma_pow2_unfold((i + 1) as nat);
            }
            out.push(s);
            carry = c2;
            i = i + 1;
        }
        proof {
            lemma_value_below_full(self@, (n + 1) as nat);
            lemma_value_below_full(rhs@, (n + 1) as nat);
            if carry == Boolean::True {
                lemma_value_bound_sig(self@);
                lemma_value_bound_sig(rhs@);
                if sig_len(self@) < n {
                    lemma_pow2_strictly_increases(sig_len(self@), n as nat);
                }
                if sig_len(rhs@) < n {
                    lemma_pow2_strictly_increases(sig_len(rhs@), n as nat);
                }
                lemma_pow2_unfold((n + 1) as nat);
                assert(false);
            }
        }
        let mut r = UInt { binary: out };
        r.trim_mut();
        r
    }

    /// In-place addition: the receiver's digits are replaced by the sum's.
    pub fn add_assign(&mut self, rhs: &UInt)
        requires
            sig_len(old(self)@) < usize::MAX,
            sig_len(rhs@) < usize::MAX,
        ensures
            is_trimmed(final(self)@),
            value_of(final(self)@) == value_of(old(self)@) + value_of(rhs@),
    {
        let r = self.add(rhs);
        *self = r;
    }
}

impl UInt {
    /// Multiplication, by double and add: every `True` digit of the right
    /// operand at position `i` adds the left operand shifted up by `i` to
    /// the accumulator. The result is trimmed.
    pub fn mul(&self, rhs: &UInt) -> (r: UInt)
        requires
            sig_len(self@) + sig_len(rhs@) + 2 <= usize::MAX,
        ensures
            is_trimmed(r@),
            value_of(r@) == value_of(self@) * value_of(rhs@),
    {
        let ghost va = value_of(self@);
        let ghost vb = value_of(rhs@);
        proof {
            lemma_value_bound_sig(self@);
            lemma_value_bound_sig(rhs@);
            lemma_sig_len_bits(rhs@);
            lemma_sig_len_le_len(self@);
        }
        let a = self.trim();
        let mut res = UInt { binary: Vec::new() };
        proof {
            assert(res@ =~= Seq::<Boolean>::empty());
            assert(value_of(res@) == 0);
            assert(value_below(rhs@, 0) == 0);
            assert(va * 0 == 0) by (nonlinear_arith);
        }
        let ln = rhs.bit_len();
        let mut i: usize = 0;
        while i < ln
            invariant
                i <= ln,
                ln == rhs@.len(),
                a@ == trim_bits(self@),
                is_trimmed(a@),
                value_of(a@) == va,
                a@.len() == sig_len(self@),
                va == value_of(self@),
                vb == value_of(rhs@),
                va < pow2(sig_len(self@)),
                vb < pow2(sig_len(rhs@)),
                sig_len(self@) + sig_len(rhs@) + 2 <= usize::MAX,
                is_trimmed(res@),
                value_of(res@) == va * value_below(rhs@, i as nat),
            decreases ln - i,
        {
            let ghost prev = value_below(rhs@, i as nat);
            match rhs.binary()[i] {
                Boolean::True => {
                    proof {
                        lemma_sig_len_bits(rhs@);
                        assert(bit(rhs@, i as int));
                        assert(i < sig_len(rhs@));
                    }
                    let shifted = a.shifted(i);
                    proof {
                        lemma_sig_len_le_len(shifted@);
                        lemma_value_below_le(rhs@, i as nat);
                        assert(value_of(res@) <= va * vb) by (nonlinear_arith)
                            requires
                                value_of(res@) == va * value_below(rhs@, i as nat),
                                value_below(rhs@, i as nat) <= vb,
                                va >= 0,
                        ;
                        assert(va * vb < pow2(sig_len(self@) + sig_len(rhs@))) by {
                            assert(va * vb < pow2(sig_len(self@)) * pow2(sig_len(rhs@)))
                                by (nonlinear_arith)
                                requires
                                    va < pow2(sig_len(self@)),
                                    vb < pow2(sig_len(rhs@)),
                                    pow2(sig_len(self@)) > 0,
                                    pow2(sig_len(rhs@)) > 0,
                            ;
                            lemma_pow2_adds(sig_len(self@), sig_len(rhs@));
                        }
                        lemma_sig_le_of_value_lt(res@, sig_len(self@) + sig_len(rhs@));
                    }
                    let next = res.add(&shifted);
                    res = next;
                    proof {
                        assert(value_of(res@) == va * prev + pow2(i as nat) * va);
                        assert(value_below(rhs@, (i + 1) as nat) == prev + pow2(i as nat));
                        assert(va * prev + pow2(i as nat) * va == va * (prev + pow2(i as nat)))
                            by (nonlinear_arith);
                    }
                },
                Boolean::False => {
                    proof {
                        assert(!bit(rhs@, i as int));
                        assert(value_below(rhs@, (i + 1) as nat) == prev);
                    }
                },
            }
            i = i + 1;
        }
        proof {
            lemma_sig_len_le_len(rhs@);
            lemma_value_below_full(rhs@, ln as nat);
        }
        res
    }

    /// In-place multiplication: the receiver's digits are replaced by the
    /// product's.
    pub fn mul_assign(&mut self, rhs: &UInt)
        requires
            sig_len(old(self)@) + sig_len(rhs@) + 2 <= usize::MAX,
        ensures
            is_trimmed(final(self)@),
            value_of(final(self)@) == value_of(old(self)@) * value_of(rhs@),
    {
        let r = self.mul(rhs);
        *self = r;
    }
}

impl UInt {
    /// Subtraction, defined only when the right operand does not exceed
    /// the left: the unique difference is found by binary search, using
    /// only comparison and addition. The result is trimmed.
    pub fn sub(&self, rhs: &UInt) -> (r: UInt)
        requires
            value_of(rhs@) <= value_of(self@),
            sig_len(self@) + 2 <= usize::MAX,
        ensures
            is_trimmed(r@),
            value_of(r@) == value_of(self@) - value_of(rhs@),
    {
        let ghost va = value_of(self@);
        let ghost vb = value_of(rhs@);
        proof {
            lemma_value_bound_sig(self@);
            lemma_sig_le_of_value_lt(rhs@, sig_len(self@));
            lemma_canon(0);
            lemma_canon(1);
        }
        let one = UInt::from_native(1);
        let mut le = UInt::from_native(0);
        let mut gt = self.add(&one);
        proof {
            lemma_pow2_unfold(sig_len(self@) + 1);
            lemma_pow2_pos(sig_len(self@));
            lemma_sig_le_of_value_lt(gt@, sig_len(self@) + 1);
        }
        while gt.gt(&le.add(&one))
            invariant
                is_trimmed(le@),
                is_trimmed(gt@),
                one@ == canon(1),
                value_of(one@) == 1,
                sig_len(one@) == 1,
                va == value_of(self@),
                vb == value_of(rhs@),
                vb <= va,
                va < pow2(sig_len(self@)),
                sig_len(self@) + 2 <= usize::MAX,
                value_of(le@) + vb <= va,
                va < value_of(gt@) + vb,
                value_of(gt@) <= va + 1,
                value_of(le@) < value_of(gt@),
                sig_len(le@) <= sig_len(self@),
                sig_len(gt@) <= sig_len(self@) + 1,
                sig_len(rhs@) <= sig_len(self@),
            decreases value_of(gt@) - value_of(le@),
        {
            let ghost g = value_of(gt@);
            let ghost l = value_of(le@);
            let sum = gt.add(&le);
            proof {
                if sum@.len() == 0 {
                    assert(value_of(sum@) == 0);
                }
                assert(sum@.len() > 0);
                lemma_value_half(sum@);
                lemma_trimmed_skip(sum@, 1);
                assert(min_nat(value_of(one@), sum@.len()) == 1);
            }
            let mid = sum.shr(&one);
            proof {
                assert(value_of(mid@) == (g + l) / 2);
                assert((g + l) / 2 >= l + 1) by {
                    lemma_div_is_ordered(2 * ((l + 1) as int), (g + l) as int, 2);
                    lemma_div_multiples_vanish((l + 1) as int, 2);
                }
                assert((g + l) / 2 <= g - 1) by {
                    lemma_div_is_ordered((g + l) as int, 2 * ((g - 1) as int), 2);
                    lemma_div_multiples_vanish((g - 1) as int, 2);
                }
                lemma_sig_le_of_value_lt(mid@, sig_len(self@));
            }
            let mid_b = mid.add(rhs);
            if mid_b.gt(self) {
                gt = mid;
            } else {
                le = mid;
            }
        }
        proof {
            assert(value_of(gt@) <= value_of(le@) + 1);
            assert(value_of(le@) == va - vb);
        }
        le
    }

    /// In-place subtraction, with the same restriction to a right operand
    /// that does not exceed the left.
    pub fn sub_assign(&mut self, rhs: &UInt)
        requires
            value_of(rhs@) <= value_of(old(self)@),
            sig_len(old(self)@) + 2 <= usize::MAX,
        ensures
            is_trimmed(final(self)@),
            value_of(final(self)@) == value_of(old(self)@) - value_of(rhs@),
    {
        let r = self.sub(rhs);
        *self = r;
    }

    /// Subtraction that reports instead of forbidding: the difference
    /// where the right operand does not exceed the left, and nothing
    /// exactly where it does.
    pub fn checked_sub(&self, rhs: &UInt) -> (r: Option<UInt>)
        requires
            sig_len(self@) + 2 <= usize::MAX,
        ensures
            r is Some <==> value_of(rhs@) <= value_of(self@),
            r matches Some(d) ==> is_trimmed(d@) && value_of(d@) == value_of(self@) - value_of(
                rhs@,
            ),
    {
        if rhs.le(self) {
            Some(self.sub(rhs))
        } else {
            None
        }
    }
}

impl UInt {
    /// Floor division, defined only for a nonzero divisor: the unique
    /// quotient is found by binary search, comparing the candidate times
    /// the divisor against the dividend. The result is trimmed.
    pub fn div(&self, rhs: &UInt) -> (r: UInt)
        requires
            value_of(rhs@) > 0,
            sig_len(self@) + sig_len(rhs@) + 2 <= usize::MAX,
        ensures
            is_trimmed(r@),
            value_of(r@) == value_of(self@) / value_of(rhs@),
    {
        let ghost va = value_of(self@);
        let ghost vb = value_of(rhs@);
        proof {
            lemma_value_bound_sig(self@);
            lemma_value_sig(rhs@);
            lemma_sig_len_le_len(rhs@);
            lemma_canon(0);
            lemma_canon(1);
        }
        let b = rhs.trim();
        let one = UInt::from_native(1);
        let mut le = UInt::from_native(0);
        let mut gt = self.add(&one);
        proof {
            lemma_pow2_unfold(sig_len(self@) + 1);
            lemma_pow2_pos(sig_len(self@));
            lemma_sig_le_of_value_lt(gt@, sig_len(self@) + 1);
            assert(va < (va + 1) * vb) by (nonlinear_arith)
                requires
                    vb >= 1,
            ;
            assert(0 * vb == 0) by (nonlinear_arith);
        }
        while gt.gt(&le.add(&one))
            invariant
                is_trimmed(le@),
                is_trimmed(gt@),
                is_trimmed(b@),
                value_of(b@) == vb,
                sig_len(b@) == sig_len(rhs@),
                one@ == canon(1),
                value_of(one@) == 1,
                sig_len(one@) == 1,
                va == value_of(self@),
                vb == value_of(rhs@),
                vb >= 1,
                va < pow2(sig_len(self@)),
                sig_len(self@) + sig_len(rhs@) + 2 <= usize::MAX,
                value_of(le@) * vb <= va,
                va < value_of(gt@) * vb,
                value_of(gt@) <= va + 1,
                value_of(le@) < value_of(gt@),
                sig_len(le@) <= sig_len(self@),
                sig_len(gt@) <= sig_len(self@) + 1,
            decreases value_of(gt@) - value_of(le@),
        {
            let ghost g = value_of(gt@);
            let ghost l = value_of(le@);
            let sum = gt.add(&le);
            proof {
                if sum@.len() == 0 {
                    assert(value_of(sum@) == 0);
                    assert(g == 0 && l == 0);
                    assert(va < 0 * vb) by (nonlinear_arith)
                        requires
                            g == 0,
                            va < g * vb,
                    ;
                }
                assert(sum@.len() > 0);
                lemma_value_half(sum@);
                lemma_trimmed_skip(sum@, 1);
                assert(min_nat(value_of(one@), sum@.len()) == 1);
            }
            let mid = sum.shr(&one);
            proof {
                assert(value_of(mid@) == (g + l) / 2);
                assert((g + l) / 2 >= l + 1) by {
                    lemma_div_is_ordered(2 * ((l + 1) as int), (g + l) as int, 2);
                    lemma_div_multiples_vanish((l + 1) as int, 2);
                }
                assert((g + l) / 2 <= g - 1) by {
                    lemma_div_is_ordered((g + l) as int, 2 * ((g - 1) as int), 2);
                    lemma_div_multiples_vanish((g - 1) as int, 2);
                }
                lemma_sig_le_of_value_lt(mid@, sig_len(self@));
            }
            let prod = mid.mul(&b);
            if prod.gt(self) {
                gt = mid;
            } else {
                le = mid;
            }
        }
        proof {
            let l = value_of(le@);
            assert(value_of(gt@) == l + 1);
            assert(va < (l + 1) * vb);
            assert((l + 1) * vb == l * vb + vb) by (nonlinear_arith);
            lemma_fundamental_div_mod_converse_div(
                va as int,
                vb as int,
                l as int,
                va - l * vb,
            );
        }
        le
    }

    /// In-place floor division by a nonzero divisor.
    pub fn div_assign(&mut self, rhs: &UInt)
        requires
            value_of(rhs@) > 0,
            sig_len(old(self)@) + sig_len(rhs@) + 2 <= usize::MAX,
        ensures
            is_trimmed(final(self)@),
            value_of(final(self)@) == value_of(old(self)@) / value_of(rhs@),
    {
        let r = self.div(rhs);
        *self = r;
    }

    /// Division that reports instead of forbidding: the quotient for a
    /// nonzero divisor, and nothing exactly when the divisor is zero.
    pub fn checked_div(&self, rhs: &UInt) -> (r: Option<UInt>)
        requires
            sig_len(self@) + sig_len(rhs@) + 2 <= usize::MAX,
        ensures
            r is Some <==> value_of(rhs@) > 0,
            r matches Some(q) ==> is_trimmed(q@) && value_of(q@) == value_of(self@) / value_of(
                rhs@,
            ),
    {
        proof {
            lemma_value_sig(rhs@);
            if sig_len(rhs@) > 0 {
                lemma_pow2_pos((sig_len(rhs@) - 1) as nat);
            }
        }
        if rhs.max_bit_digit() == 0 {
            None
        } else {
            Some(self.div(rhs))
        }
    }

    /// The remainder: what division leaves over, derived as the dividend
    /// minus the quotient times the divisor, so the division identity
    /// holds by construction. Defined only for a nonzero divisor.
    pub fn rem(&self, rhs: &UInt) -> (r: UInt)
        requires
            value_of(rhs@) > 0,
            sig_len(self@) + sig_len(rhs@) + 2 <= usize::MAX,
        ensures
            is_trimmed(r@),
            value_of(r@) == value_of(self@) % value_of(rhs@),
    {
        let ghost va = value_of(self@);
        let ghost vb = value_of(rhs@);
        proof {
            lemma_value_sig(rhs@);
            lemma_value_bound_sig(self@);
        }
        let d = self.div(rhs);
        proof {
            lemma_sig_len_le_len(rhs@);
            lemma_div_basics(vb as int);
            lemma_div_is_ordered_by_denominator(va as int, 1, vb as int);
            lemma_fundamental_div_mod(va as int, vb as int);
            lemma_mod_bound(va as int, vb as int);
            assert(value_of(d@) * vb == vb * (va / vb)) by (nonlinear_arith)
                requires
                    value_of(d@) == va / vb,
            ;
            lemma_sig_le_of_value_lt(d@, sig_len(self@));
        }
        let p = d.mul(&rhs.trim());
        let r = self.sub(&p);
        r
    }

    /// In-place remainder by a nonzero divisor.
    pub fn rem_assign(&mut self, rhs: &UInt)
        requires
            value_of(rhs@) > 0,
            sig_len(old(self)@) + sig_len(rhs@) + 2 <= usize::MAX,
        ensures
            is_trimmed(final(self)@),
            value_of(final(self)@) == value_of(old(self)@) % value_of(rhs@),
    {
        let r = self.rem(rhs);
        *self = r;
    }

    /// Remainder that reports instead of forbidding: the remainder for a
    /// nonzero divisor, and nothing exactly when the divisor is zero.
    pub fn checked_rem(&self, rhs: &UInt) -> (r: Option<UInt>)
        requires
            sig_len(self@) + sig_len(rhs@) + 2 <= usize::MAX,
        ensures
            r is Some <==> value_of(rhs@) > 0,
            r matches Some(m) ==> is_trimmed(m@) && value_of(m@) == value_of(self@) % value_of(
                rhs@,
            ),
    {
        proof {
            lemma_value_sig(rhs@);
            if sig_len(rhs@) > 0 {
                lemma_pow2_pos((sig_len(rhs@) - 1) as nat);
            }
        }
        if rhs.max_bit_digit() == 0 {
            None
        } else {
            Some(self.rem(rhs))
        }
    }
}


/// The greatest common divisor of two naturals, by Euclid: the second
/// operand repeatedly replaces the first while the remainder replaces the
/// second, until the second is zero.
pub open spec fn gcd_nat(a: nat, b: nat) -> nat
    decreases b,
{
    if b == 0 {
        a
    } else {
        gcd_nat(b, a % b)
    }
}

/// The greatest common divisor of two numbers, by the Euclidean
/// algorithm: repeated remainders of the larger by the smaller until the
/// smaller reaches zero.
pub fn gcd(a: UInt, b: UInt) -> (r: UInt)
    requires
        sig_len(a@) + sig_len(b@) + 2 <= usize::MAX,
    ensures
        value_of(r@) == gcd_nat(value_of(a@), value_of(b@)),
{
    let ghost va = value_of(a@);
    let ghost vb = value_of(b@);
    proof {
        lemma_value_bound_sig(a@);
        lemma_value_bound_sig(b@);
        if !(vb <= va) {
            lemma_mod_bound(va as int, vb as int);
            lemma_small_mod(va, vb);
            assert(gcd_nat(va, vb) == gcd_nat(vb, va));
        }
    }
    let (mut ma, mut mi) = if b.le(&a) {
        (a, b)
    } else {
        (b, a)
    };
    while mi.max_bit_digit() > 0
        invariant
            gcd_nat(value_of(ma@), value_of(mi@)) == gcd_nat(va, vb),
            value_of(mi@) <= value_of(ma@),
            sig_len(ma@) + sig_len(mi@) + 2 <= usize::MAX,
        decreases value_of(mi@),
    {
        let ghost m0 = value_of(ma@);
        let ghost m1 = value_of(mi@);
        proof {
            lemma_value_sig(mi@);
            lemma_pow2_pos((sig_len(mi@) - 1) as nat);
            lemma_mod_bound(m0 as int, m1 as int);
            assert(gcd_nat(m0, m1) == gcd_nat(m1, m0 % m1));
        }
        let t = ma.rem(&mi);
        proof {
            lemma_value_bound_sig(mi@);
            lemma_sig_le_of_value_lt(t@, sig_len(mi@));
            if sig_len(mi@) > sig_len(ma@) {
                lemma_value_lt_of_sig_lt(ma@, mi@);
            }
        }
        ma = mi;
        mi = t;
    }
    proof {
        lemma_value_sig(mi@);
        assert(gcd_nat(value_of(ma@), 0) == value_of(ma@));
    }
    ma
}

} // verus!
