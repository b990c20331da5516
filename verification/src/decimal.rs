//! Decimal numerals as they appear in frame headers and integer frames.
//!
//! Only the canonical numeral of a number is accepted: digits alone, a
//! single minus sign for a negative integer, no leading zero, no `-0`.
//! Printing and reading are inverse to one another, which the lemmas of
//! this module state.

use vstd::prelude::*;
use vstd::slice::slice_subrange;

verus! {

/// The ASCII code of the digit `0`.
pub const ZERO: u8 = 48;

/// The ASCII code of the digit `9`.
pub const NINE: u8 = 57;

/// The ASCII code of the minus sign.
pub const MINUS: u8 = 45;

/// The canonical decimal numeral of a natural number: no sign, and no
/// leading zero unless the number is zero itself.
pub open spec fn decimal(n: nat) -> Seq<u8>
    decreases n,
{
    if n < 10 {
        seq![(ZERO + n) as u8]
    } else {
        decimal(n / 10).push((ZERO + n % 10) as u8)
    }
}

/// The canonical decimal numeral of an integer: a minus sign in front of
/// the numeral of its magnitude when it is negative.
pub open spec fn signed_decimal(i: int) -> Seq<u8> {
    if i < 0 {
        seq![MINUS] + decimal((-i) as nat)
    } else {
        decimal(i as nat)
    }
}

/// Whether a byte is an ASCII digit.
pub open spec fn is_digit(b: u8) -> bool {
    ZERO <= b && b <= NINE
}

/// Whether every byte is an ASCII digit.
pub open spec fn all_digits(s: Seq<u8>) -> bool {
    forall|i: int| 0 <= i < s.len() ==> is_digit(#[trigger] s[i])
}

/// The number that a string of digits denotes, most significant digit
/// first.
pub open spec fn digits_value(s: Seq<u8>) -> nat
    decreases s.len(),
{
    if s.len() == 0 {
        0
    } else {
        digits_value(s.drop_last()) * 10 + (s.last() - ZERO) as nat
    }
}

/// Whether the bytes are the canonical numeral of some natural number.
pub open spec fn is_numeral(s: Seq<u8>) -> bool {
    &&& s.len() >= 1
    &&& all_digits(s)
    &&& (s.len() == 1 || s[0] != ZERO)
}

/// The natural number whose canonical numeral the bytes are, if any.
pub open spec fn numeral_value(s: Seq<u8>) -> Option<nat> {
    if is_numeral(s) {
        Some(digits_value(s))
    } else {
        None
    }
}

/// The integer whose canonical numeral the bytes are, if any.
pub open spec fn signed_numeral_value(s: Seq<u8>) -> Option<int> {
    if s.len() >= 1 && s[0] == MINUS {
        match numeral_value(s.drop_first()) {
            Some(n) => if n > 0 {
                Some(-(n as int))
            } else {
                None
            },
            None => None,
        }
    } else {
        match numeral_value(s) {
            Some(n) => Some(n as int),
            None => None,
        }
    }
}

/// The natural number that the bytes denote, provided that they are a
/// canonical numeral and the number is at most `max`.
pub open spec fn numeral_within(s: Seq<u8>, max: nat) -> Option<nat> {
    match numeral_value(s) {
        Some(n) => if n <= max {
            Some(n)
        } else {
            None
        },
        None => None,
    }
}

/// The 64-bit integer that the bytes denote, provided that they are a
/// canonical numeral of a number in range.
pub open spec fn integer_numeral(s: Seq<u8>) -> Option<i64> {
    match signed_numeral_value(s) {
        Some(i) => if i64::MIN <= i <= i64::MAX {
            Some(i as i64)
        } else {
            None
        },
        None => None,
    }
}

/// Reading the numeral of `n` gives `n` back.
pub proof fn lemma_decimal_is_numeral(n: nat)
    ensures
        is_numeral(decimal(n)),
        digits_value(decimal(n)) == n,
        n > 0 ==> decimal(n)[0] != ZERO,
    decreases n,
{
    if n < 10 {
        let s = decimal(n);
        assert(s.drop_last() =~= Seq::<u8>::empty());
        assert(digits_value(s.drop_last()) == 0);
    } else {
        lemma_decimal_is_numeral(n / 10);
        let t = decimal(n / 10);
        let d = (ZERO + n % 10) as u8;
        let s = t.push(d);
        assert(s == decimal(n));
        assert(s.drop_last() =~= t);
        assert(s[0] == t[0]);
        assert forall|i: int| 0 <= i < s.len() implies is_digit(#[trigger] s[i]) by {
            if i < t.len() {
                assert(s[i] == t[i]);
            }
        }
    }
}

/// Printing the value of a canonical numeral gives the numeral back.
pub proof fn lemma_numeral_is_decimal(s: Seq<u8>)
    requires
        is_numeral(s),
    ensures
        decimal(digits_value(s)) == s,
        s[0] != ZERO ==> digits_value(s) >= 1,
    decreases s.len(),
{
    let t = s.drop_last();
    if s.len() == 1 {
        assert(t =~= Seq::<u8>::empty());
        assert(digits_value(t) == 0);
        assert(is_digit(s[0]));
        assert(decimal(digits_value(s)) =~= s);
    } else {
        assert(t[0] == s[0]);
        assert forall|i: int| 0 <= i < t.len() implies is_digit(#[trigger] t[i]) by {
            assert(t[i] == s[i]);
        }
        lemma_numeral_is_decimal(t);
        assert(is_digit(s[s.len() - 1]));
        let v = digits_value(s);
        assert(v == digits_value(t) * 10 + (s.last() - ZERO));
        assert(v / 10 == digits_value(t));
        assert(v % 10 == s.last() - ZERO);
        assert(decimal(v) == decimal(v / 10).push((ZERO + v % 10) as u8));
        assert(t.push(s.last()) =~= s);
    }
}

/// A string of digits denotes at least what any of its prefixes denotes.
pub proof fn lemma_digits_prefix(s: Seq<u8>, k: int)
    requires
        all_digits(s),
        0 <= k <= s.len(),
    ensures
        digits_value(s.take(k)) <= digits_value(s),
    decreases s.len() - k,
{
    if k == s.len() {
        assert(s.take(k) =~= s);
    } else {
        let t = s.drop_last();
        assert forall|i: int| 0 <= i < t.len() implies is_digit(#[trigger] t[i]) by {
            assert(t[i] == s[i]);
        }
        assert(is_digit(s[s.len() - 1]));
        lemma_digits_prefix(t, k);
        assert(t.take(k) =~= s.take(k));
    }
}

/// Reading the signed numeral of `i` gives `i` back.
pub proof fn lemma_signed_decimal_is_numeral(i: int)
    ensures
        signed_numeral_value(signed_decimal(i)) == Some(i),
{
    if i < 0 {
        let m = (-i) as nat;
        lemma_decimal_is_numeral(m);
        assert(signed_decimal(i).drop_first() =~= decimal(m));
    } else {
        lemma_decimal_is_numeral(i as nat);
        assert(is_digit(decimal(i as nat)[0]));
    }
}

/// Printing the value of a canonical signed numeral gives the numeral
/// back.
pub proof fn lemma_signed_numeral_is_decimal(s: Seq<u8>)
    requires
        signed_numeral_value(s) is Some,
    ensures
        signed_decimal(signed_numeral_value(s)->0) == s,
{
    if s.len() >= 1 && s[0] == MINUS {
        lemma_numeral_is_decimal(s.drop_first());
        assert(seq![MINUS] + s.drop_first() =~= s);
    } else {
        lemma_numeral_is_decimal(s);
    }
}

/// Reads a canonical numeral: gives `n` exactly when the bytes are the
/// numeral that [`decimal`] prints of `n`. Gives `None` when the bytes are
/// no such numeral or the number exceeds 64 bits.
pub fn parse_numeral(text: &[u8]) -> (r: Option<u64>)
    ensures
        match r {
            Some(n) => numeral_within(text@, u64::MAX as nat) == Some(n as nat),
            None => numeral_within(text@, u64::MAX as nat) is None,
        },
        r matches Some(n) ==> decimal(n as nat) == text@,
        forall|n: u64| #![trigger decimal(n as nat)] decimal(n as nat) == text@ ==> r == Some(n),
{
    let r = accumulate_digits(text);
    proof {
        if is_numeral(text@) {
            lemma_numeral_is_decimal(text@);
        }
        assert forall|n: u64| #![trigger decimal(n as nat)] decimal(n as nat) == text@ implies numeral_within(
            text@,
            u64::MAX as nat,
        ) == Some(n as nat) by {
            lemma_decimal_is_numeral(n as nat);
        }
    }
    r
}

/// Reads the digits of a canonical numeral from the most significant
/// down, and gives up as soon as the number exceeds 64 bits.
fn accumulate_digits(text: &[u8]) -> (r: Option<u64>)
    ensures
        match r {
            Some(n) => numeral_within(text@, u64::MAX as nat) == Some(n as nat),
            None => numeral_within(text@, u64::MAX as nat) is None,
        },
{
    let ghost s = text@;
    if text.len() == 0 {
        return None;
    }
    if text[0] == ZERO && text.len() > 1 {
        return None;
    }
    let mut acc: u64 = 0;
    let mut i: usize = 0;
    assert(s.take(0) =~= Seq::<u8>::empty());
    while i < text.len()
        invariant
            i <= text.len(),
            s == text@,
            all_digits(s.take(i as int)),
            acc == digits_value(s.take(i as int)),
        decreases text.len() - i,
    {
        let b: u8 = text[i];
        if b < ZERO || b > NINE {
            return None;
        }
        let d: u64 = (b - ZERO) as u64;
        let ghost t = s.take(i + 1);
        proof {
            assert(t.drop_last() =~= s.take(i as int));
            assert forall|j: int| 0 <= j < t.len() implies is_digit(#[trigger] t[j]) by {
                if j < i {
                    assert(s.take(i as int)[j] == t[j]);
                }
            }
            assert(digits_value(t) == acc * 10 + d);
        }
        let next: Option<u64> = match acc.checked_mul(10) {
            Some(scaled) => scaled.checked_add(d),
            None => None,
        };
        match next {
            Some(v) => {
                acc = v;
            },
            None => {
                proof {
                    if all_digits(s) {
                        lemma_digits_prefix(s, i + 1);
                    }
                }
                return None;
            },
        }
        i += 1;
    }
    proof {
        assert(s.take(text.len() as int) =~= s);
    }
    Some(acc)
}

/// Reads a canonical signed numeral: gives `i` exactly when the bytes are
/// the numeral that [`signed_decimal`] prints of `i`. Gives `None` when the
/// bytes are no such numeral or the number does not fit in 64 bits.
pub fn parse_integer(text: &[u8]) -> (r: Option<i64>)
    ensures
        r == integer_numeral(text@),
        r matches Some(i) ==> signed_decimal(i as int) == text@,
        forall|i: i64|
            #![trigger signed_decimal(i as int)]
            signed_decimal(i as int) == text@ ==> r == Some(i),
{
    proof {
        if signed_numeral_value(text@) is Some {
            lemma_signed_numeral_is_decimal(text@);
        }
        assert forall|i: i64| #![trigger signed_decimal(i as int)] signed_decimal(i as int) == text@ implies integer_numeral(
            text@,
        ) == Some(i) by {
            lemma_signed_decimal_is_numeral(i as int);
        }
    }
    if text.len() == 0 {
        return None;
    }
    if text[0] == MINUS {
        let magnitude = slice_subrange(text, 1, text.len());
        assert(magnitude@ =~= text@.drop_first());
        match parse_numeral(magnitude) {
            None => None,
            Some(m) => {
                if m == 0 || m > 0x8000_0000_0000_0000u64 {
                    None
                } else if m == 0x8000_0000_0000_0000u64 {
                    Some(i64::MIN)
                } else {
                    let positive: i64 = m as i64;
                    Some(-positive)
                }
            },
        }
    } else {
        match parse_numeral(text) {
            None => None,
            Some(m) => {
                if m > 0x7fff_ffff_ffff_ffffu64 {
                    None
                } else {
                    Some(m as i64)
                }
            },
        }
    }
}

} // verus!
