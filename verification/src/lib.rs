//! A minimal arbitrary-precision unsigned integer built from first
//! principles: numbers are explicit sequences of two-valued logic digits
//! (least-significant first), and every operator is assembled from the
//! boolean algebra of those digits.

use vstd::prelude::*;
use vstd::string::StringSliceAdditionalSpecFns;

pub mod bits;
pub mod laws;
pub mod num;

pub use num::gcd;
pub use num::UInt;

verus! {

/// A two-valued logic type: a single digit of boolean algebra.
#[derive(Debug, Clone, Copy, PartialEq, Eq, Structural)]
pub enum Boolean {
    False,
    True,
}

impl Boolean {
    /// The native boolean this logic value stands for.
    pub open spec fn truth(self) -> bool {
        self == Boolean::True
    }

    /// The logic value standing for a native boolean.
    pub open spec fn of_bool(b: bool) -> Boolean {
        if b {
            Boolean::True
        } else {
            Boolean::False
        }
    }

    /// Negation, by the truth table.
    pub fn not(self) -> (r: Boolean)
        ensures
            r == Boolean::of_bool(!self.truth()),
    {
        match self {
            Boolean::False => Boolean::True,
            Boolean::True => Boolean::False,
        }
    }

    /// Conjunction, by the truth table.
    pub fn bitand(self, rhs: Boolean) -> (r: Boolean)
        ensures
            r == Boolean::of_bool(self.truth() && rhs.truth()),
    {
        match (self, rhs) {
            (Boolean::True, Boolean::True) => Boolean::True,
            _ => Boolean::False,
        }
    }

    /// In-place conjunction: the same truth table as `bitand`.
    pub fn bitand_assign(&mut self, rhs: Boolean)
        ensures
            *final(self) == Boolean::of_bool(old(self).truth() && rhs.truth()),
    {
        *self = self.bitand(rhs);
    }

    /// Disjunction, by the truth table.
    pub fn bitor(self, rhs: Boolean) -> (r: Boolean)
        ensures
            r == Boolean::of_bool(self.truth() || rhs.truth()),
    {
        match (self, rhs) {
            (Boolean::False, Boolean::False) => Boolean::False,
            _ => Boolean::True,
        }
    }

    /// In-place disjunction: the same truth table as `bitor`.
    pub fn bitor_assign(&mut self, rhs: Boolean)
        ensures
            *final(self) == Boolean::of_bool(old(self).truth() || rhs.truth()),
    {
        *self = self.bitor(rhs);
    }

    /// Exclusive or, by the truth table.
    pub fn bitxor(self, rhs: Boolean) -> (r: Boolean)
        ensures
            r == Boolean::of_bool(self.truth() != rhs.truth()),
    {
        match (self, rhs) {
            (Boolean::False, Boolean::False) | (Boolean::True, Boolean::True) => Boolean::False,
            _ => Boolean::True,
        }
    }

    /// In-place exclusive or: the same truth table as `bitxor`.
    pub fn bitxor_assign(&mut self, rhs: Boolean)
        ensures
            *final(self) == Boolean::of_bool(old(self).truth() != rhs.truth()),
    {
        *self = self.bitxor(rhs);
    }

    /// The display form, capitalized: `"True"` or `"False"`.
    pub fn display(&self) -> (r: &'static str)
        ensures
            self.truth() ==> r@ == "True"@,
            !self.truth() ==> r@ == "False"@,
    {
        match self {
            Boolean::True => "True",
            Boolean::False => "False",
        }
    }

    /// Reads a logic value from text. Only the exact tokens `true` (four
    /// characters) and `false` (five characters), each letter in either
    /// case, are accepted; every other string is rejected, and the
    /// failure carries the rejected text.
    pub fn parse(s: &str) -> (r: Result<Boolean, ParseBooleanError>)
        ensures
            r == Ok::<Boolean, ParseBooleanError>(Boolean::True) <==> folds_to(
                s.spec_bytes(),
                true_token(),
            ),
            r == Ok::<Boolean, ParseBooleanError>(Boolean::False) <==> folds_to(
                s.spec_bytes(),
                false_token(),
            ),
            r is Err <==> !folds_to(s.spec_bytes(), true_token()) && !folds_to(
                s.spec_bytes(),
                false_token(),
            ),
            r matches Err(e) ==> e.text@ == s@,
    {
        let b = s.as_bytes();
        if b.len() == 4 {
            if fold(b[0]) == 116 && fold(b[1]) == 114 && fold(b[2]) == 117 && fold(b[3]) == 101 {
                proof {
                    assert forall|i: int|
                        0 <= i < 4 implies fold_byte(s.spec_bytes()[i]) == true_token()[i] by {
                        if i == 0 {
                        } else if i == 1 {
                        } else if i == 2 {
                        } else {
                            assert(i == 3);
                        }
                    }
                }
                return Ok(Boolean::True);
            }
            proof {
                assert(!folds_to(s.spec_bytes(), true_token())) by {
                    if folds_to(s.spec_bytes(), true_token()) {
                        assert(fold_byte(s.spec_bytes()[0]) == true_token()[0]);
                        assert(fold_byte(s.spec_bytes()[1]) == true_token()[1]);
                        assert(fold_byte(s.spec_bytes()[2]) == true_token()[2]);
                        assert(fold_byte(s.spec_bytes()[3]) == true_token()[3]);
                    }
                }
            }
        } else if b.len() == 5 {
            if fold(b[0]) == 102 && fold(b[1]) == 97 && fold(b[2]) == 108 && fold(b[3]) == 115
                && fold(b[4]) == 101 {
                proof {
                    assert forall|i: int|
                        0 <= i < 5 implies fold_byte(s.spec_bytes()[i]) == false_token()[i] by {
                        if i == 0 {
                        } else if i == 1 {
                        } else if i == 2 {
                        } else if i == 3 {
                        } else {
                            assert(i == 4);
                        }
                    }
                }
                return Ok(Boolean::False);
            }
            proof {
                assert(!folds_to(s.spec_bytes(), false_token())) by {
                    if folds_to(s.spec_bytes(), false_token()) {
                        assert(fold_byte(s.spec_bytes()[0]) == false_token()[0]);
                        assert(fold_byte(s.spec_bytes()[1]) == false_token()[1]);
                        assert(fold_byte(s.spec_bytes()[2]) == false_token()[2]);
                        assert(fold_byte(s.spec_bytes()[3]) == false_token()[3]);
                        assert(fold_byte(s.spec_bytes()[4]) == false_token()[4]);
                    }
                }
            }
        }
        Err(ParseBooleanError { text: s.to_owned() })
    }
}

/// The failure a rejected token parses to; it carries the rejected text.
#[derive(Debug)]
pub struct ParseBooleanError {
    /// The text that could not be read as a logic value.
    pub text: String,
}

/// An ASCII upper-case letter folded to its lower-case form; every other
/// byte is kept as it is.
pub open spec fn fold_byte(b: u8) -> u8 {
    if 65 <= b <= 90 {
        (b + 32) as u8
    } else {
        b
    }
}

/// The bytes spell the token, letter for letter up to ASCII case.
pub open spec fn folds_to(s: Seq<u8>, t: Seq<u8>) -> bool {
    s.len() == t.len() && forall|i: int| 0 <= i < s.len() ==> fold_byte(s[i]) == t[i]
}

/// The accepted lower-case token for `True`, as bytes: `t`, `r`, `u`,
/// `e`.
pub open spec fn true_token() -> Seq<u8> {
    seq![116u8, 114u8, 117u8, 101u8]
}

/// The accepted lower-case token for `False`, as bytes: `f`, `a`, `l`,
/// `s`, `e`.
pub open spec fn false_token() -> Seq<u8> {
    seq![102u8, 97u8, 108u8, 115u8, 101u8]
}

/// One byte folded as `fold_byte` says.
fn fold(b: u8) -> (r: u8)
    ensures
        r == fold_byte(b),
{
    if 65 <= b && b <= 90 {
        b + 32
    } else {
        b
    }
}

impl core::str::FromStr for Boolean {
    type Err = ParseBooleanError;

    /// Reads a logic value from text, as `parse` does.
    fn from_str(s: &str) -> (r: Result<Boolean, ParseBooleanError>) {
        Boolean::parse(s)
    }
}

impl From<bool> for Boolean {
    /// The logic value a native boolean stands for.
    fn from(item: bool) -> (r: Boolean) {
        if item {
            Boolean::True
        } else {
            Boolean::False
        }
    }
}

impl vstd::std_specs::convert::FromSpecImpl<bool> for Boolean {
    open spec fn obeys_from_spec() -> bool {
        true
    }

    open spec fn from_spec(v: bool) -> Boolean {
        Boolean::of_bool(v)
    }
}

impl From<Boolean> for bool {
    /// The native boolean a logic value stands for.
    fn from(item: Boolean) -> (r: bool) {
        match item {
            Boolean::False => false,
            Boolean::True => true,
        }
    }
}

impl vstd::std_specs::convert::FromSpecImpl<Boolean> for bool {
    open spec fn obeys_from_spec() -> bool {
        true
    }

    open spec fn from_spec(v: Boolean) -> bool {
        v.truth()
    }
}

} // verus!
