//! Reading integers from decimal text.

use crate::float_text::{digits_value, is_digit};
use crate::text::{chars_of, decimal, int_text};
use vstd::prelude::*;

verus! {

/// Whether a text is one or more digits.
pub open spec fn all_digits(s: Seq<char>) -> bool {
    s.len() > 0 && forall|i: int| 0 <= i < s.len() ==> is_digit(#[trigger] s[i])
}

/// The text without its first character.
pub open spec fn rest_of(s: Seq<char>) -> Seq<char> {
    s.subrange(1, s.len() as int)
}

/// The number that a text denotes: an optional plus sign and digits, within 64
/// bits.
pub open spec fn unsigned_of_text(s: Seq<char>) -> Option<u64> {
    let digits = if s.len() > 0 && s[0] == '+' {
        rest_of(s)
    } else {
        s
    };
    if all_digits(digits) && digits_value(digits) <= u64::MAX {
        Some(digits_value(digits) as u64)
    } else {
        None
    }
}

/// The integer that a text denotes: an optional sign and digits, within 64 bits.
pub open spec fn signed_of_text(s: Seq<char>) -> Option<i64> {
    if s.len() > 0 && s[0] == '-' {
        let digits = rest_of(s);
        if all_digits(digits) && digits_value(digits) <= 0x8000_0000_0000_0000 {
            Some((-digits_value(digits)) as i64)
        } else {
            None
        }
    } else {
        let digits = if s.len() > 0 && s[0] == '+' {
            rest_of(s)
        } else {
            s
        };
        if all_digits(digits) && digits_value(digits) <= i64::MAX {
            Some(digits_value(digits) as i64)
        } else {
            None
        }
    }
}

/// The number that the digits from `start` on denote, if there are only digits
/// and it fits in 64 bits.
pub fn read_number(s: &Vec<char>, start: usize) -> (r: Option<u64>)
    requires
        start <= s.len(),
    ensures
        ({
            let digits = s@.subrange(start as int, s.len() as int);
            r == if all_digits(digits) && digits_value(digits) <= u64::MAX {
                Some(digits_value(digits) as u64)
            } else {
                None::<u64>
            }
        }),
{
    let ghost digits = s@.subrange(start as int, s.len() as int);
    if start >= s.len() {
        return None;
    }
    let mut i: usize = start;
    let mut n: u64 = 0;
    let mut fits = true;
    assert(s@.subrange(start as int, i as int) =~= Seq::empty());
    while i < s.len()
        invariant
            start <= i <= s.len(),
            digits == s@.subrange(start as int, s.len() as int),
            forall|j: int| 0 <= j < i - start ==> is_digit(#[trigger] digits[j]),
            fits ==> n == digits_value(s@.subrange(start as int, i as int)),
            !fits ==> digits_value(s@.subrange(start as int, i as int)) > u64::MAX,
        decreases s.len() - i,
    {
        let c = s[i];
        proof {
            assert(digits[i - start] == c);
            let grown = s@.subrange(start as int, i + 1);
            assert(grown.drop_last() =~= s@.subrange(start as int, i as int));
            assert(grown.last() == c);
        }
        if !('0' <= c && c <= '9') {
            assert(!all_digits(digits));
            return None;
        }
        if fits {
            let next: u128 = n as u128 * 10 + (c as u32 - 48) as u128;
            if next > u64::MAX as u128 {
                fits = false;
            } else {
                n = next as u64;
            }
        }
        i += 1;
    }
    assert(s@.subrange(start as int, i as int) =~= digits);
    if fits {
        Some(n)
    } else {
        None
    }
}

/// Reads a number of 64 bits.
pub fn parse_u64(text: &str) -> (r: Option<u64>)
    ensures
        r == unsigned_of_text(text@),
{
    let s = chars_of(text);
    let start: usize = if s.len() > 0 && s[0] == '+' {
        1
    } else {
        0
    };
    assert(s@.subrange(0, s.len() as int) =~= s@);
    read_number(&s, start)
}

/// Reads an integer of 64 bits.
pub fn parse_i64(text: &str) -> (r: Option<i64>)
    ensures
        r == signed_of_text(text@),
{
    let s = chars_of(text);
    assert(s@.subrange(0, s.len() as int) =~= s@);
    if s.len() > 0 && s[0] == '-' {
        match read_number(&s, 1) {
            Some(n) => if n <= 0x8000_0000_0000_0000 {
                Some((-(n as i128)) as i64)
            } else {
                None
            },
            None => None,
        }
    } else {
        let start: usize = if s.len() > 0 && s[0] == '+' {
            1
        } else {
            0
        };
        match read_number(&s, start) {
            Some(n) => if n <= 0x7fff_ffff_ffff_ffff {
                Some(n as i64)
            } else {
                None
            },
            None => None,
        }
    }
}

/// A numeral consists of digits and denotes its number.
pub proof fn lemma_numeral(n: nat)
    ensures
        all_digits(decimal(n)),
        digits_value(decimal(n)) == n,
    decreases n,
{
    let s = decimal(n);
    if n < 10 {
        reveal_with_fuel(digits_value, 2);
        assert(s.drop_last() =~= Seq::empty());
        assert(is_digit(s[0]));
    } else {
        lemma_numeral(n / 10);
        let t = decimal(n / 10);
        assert(s.drop_last() =~= t);
        assert forall|i: int| 0 <= i < s.len() implies is_digit(#[trigger] s[i]) by {
            if i < t.len() {
                assert(s[i] == t[i]);
            }
        }
    }
}

/// A number that is written is read back.
pub proof fn law_number_reads_back(n: u64)
    ensures
        unsigned_of_text(decimal(n as nat)) == Some(n),
{
    lemma_numeral(n as nat);
    assert(is_digit(decimal(n as nat)[0]));
}

/// An integer that is written is read back.
pub proof fn law_integer_reads_back(n: i64)
    ensures
        signed_of_text(int_text(n as int)) == Some(n),
{
    let m: nat = if n < 0 {
        (-n) as nat
    } else {
        n as nat
    };
    lemma_numeral(m);
    assert(is_digit(decimal(m)[0]));
    if n < 0 {
        reveal_strlit("-");
        let s = int_text(n as int);
        assert(s[0] == '-');
        assert(rest_of(s) =~= decimal(m));
    }
}

/// A numeral has no zero at its start, but for that of zero itself.
pub proof fn law_numeral_has_no_leading_zero(n: nat)
    requires
        n > 0,
    ensures
        decimal(n).len() > 0,
        decimal(n)[0] != '0',
    decreases n,
{
    if n >= 10 {
        law_numeral_has_no_leading_zero(n / 10);
        assert(decimal(n)[0] == decimal(n / 10)[0]);
    }
}

/// A plus before digits changes nothing, and a minus turns the number.
pub proof fn law_signs_before_integers(n: u64)
    requires
        n <= i64::MAX,
    ensures
        unsigned_of_text(seq!['+'] + decimal(n as nat)) == Some(n),
        signed_of_text(seq!['+'] + decimal(n as nat)) == Some(n as i64),
        signed_of_text(seq!['-'] + decimal(n as nat)) == Some((-n) as i64),
        unsigned_of_text(seq!['-'] + decimal(n as nat)) is None,
{
    let d = decimal(n as nat);
    lemma_numeral(n as nat);
    let p = seq!['+'] + d;
    let m = seq!['-'] + d;
    assert(rest_of(p) =~= d);
    assert(rest_of(m) =~= d);
    assert(p[0] == '+' && m[0] == '-');
    assert(!is_digit(m[0]));
}

} // verus!
