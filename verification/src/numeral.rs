//! Which texts are decimal numbers.
//!
//! A regulation power is kept as it is written. What counts as a number is
//! the usual way to write a value in base ten: an optional sign, digits with
//! at most one point among them, and an optional exponent behind an `e`.
//! Nothing may stand before or behind it, not even a blank, and no word
//! stands for a number: `NaN` and `inf` are none.

use crate::text::to_chars;
use vstd::prelude::*;
use vstd::slice::slice_subrange;

verus! {

/// `c` is one of the ten digits.
pub open spec fn is_digit(c: char) -> bool {
    '0' <= c && c <= '9'
}

/// `c` is a plus or a minus sign.
pub open spec fn is_sign(c: char) -> bool {
    c == '+' || c == '-'
}

/// `c` is the letter that opens an exponent.
pub open spec fn is_exponent_mark(c: char) -> bool {
    c == 'e' || c == 'E'
}

/// Every character of `s` is a digit.
pub open spec fn all_digits(s: Seq<char>) -> bool {
    forall|i: int| 0 <= i < s.len() ==> is_digit(#[trigger] s[i])
}

/// `s` without the sign that it may start with.
pub open spec fn unsigned_part(s: Seq<char>) -> Seq<char> {
    if s.len() > 0 && is_sign(s[0]) {
        s.skip(1)
    } else {
        s
    }
}

/// `s` has a point at `point`, digits and nothing else around it, and at
/// least one digit.
pub open spec fn point_splits(s: Seq<char>, point: int) -> bool {
    &&& 0 <= point < s.len()
    &&& s.len() > 1
    &&& s[point] == '.'
    &&& all_digits(s.take(point))
    &&& all_digits(s.skip(point + 1))
}

/// `s` is made of digits with at most one point among them, and has at least
/// one digit.
pub open spec fn is_mantissa(s: Seq<char>) -> bool {
    ||| s.len() > 0 && all_digits(s)
    ||| exists|point: int| point_splits(s, point)
}

/// `s` is what may stand behind the `e`: an optional sign and at least one
/// digit.
pub open spec fn is_exponent(s: Seq<char>) -> bool {
    unsigned_part(s).len() > 0 && all_digits(unsigned_part(s))
}

/// `s` has an `e` at `at`, a mantissa before it and an exponent behind it.
pub open spec fn exponent_splits(s: Seq<char>, at: int) -> bool {
    &&& 0 <= at < s.len()
    &&& is_exponent_mark(s[at])
    &&& is_mantissa(s.take(at))
    &&& is_exponent(s.skip(at + 1))
}

/// `s` is a mantissa, with or without an exponent behind it.
pub open spec fn is_number(s: Seq<char>) -> bool {
    ||| is_mantissa(s)
    ||| exists|at: int| exponent_splits(s, at)
}

/// `s` is a decimal number.
pub open spec fn is_numeral(s: Seq<char>) -> bool {
    is_number(unsigned_part(s))
}

/// A mantissa holds digits and points only.
proof fn lemma_mantissa_chars(s: Seq<char>)
    requires
        is_mantissa(s),
    ensures
        forall|i: int| 0 <= i < s.len() ==> is_digit(#[trigger] s[i]) || s[i] == '.',
{
    if !(s.len() > 0 && all_digits(s)) {
        let point = choose|point: int| point_splits(s, point);
        assert forall|i: int| 0 <= i < s.len() implies is_digit(#[trigger] s[i]) || s[i]
            == '.' by {
            if i < point {
                assert(s.take(point)[i] == s[i]);
            } else if i > point {
                assert(s.skip(point + 1)[i - point - 1] == s[i]);
            }
        }
    }
}

fn digit(c: char) -> (yes: bool)
    ensures
        yes == is_digit(c),
{
    '0' <= c && c <= '9'
}

fn sign(c: char) -> (yes: bool)
    ensures
        yes == is_sign(c),
{
    c == '+' || c == '-'
}

/// `s` without the sign that it may start with.
fn without_sign<'a>(s: &'a [char]) -> (rest: &'a [char])
    ensures
        rest@ == unsigned_part(s@),
{
    if s.len() > 0 && sign(s[0]) {
        slice_subrange(s, 1, s.len())
    } else {
        s
    }
}

fn all_digits_of(s: &[char]) -> (yes: bool)
    ensures
        yes == all_digits(s@),
{
    let mut at: usize = 0;
    while at < s.len()
        invariant
            at <= s.len(),
            forall|i: int| 0 <= i < at ==> is_digit(#[trigger] s@[i]),
        decreases s.len() - at,
    {
        if !digit(s[at]) {
            return false;
        }
        at += 1;
    }
    true
}

fn is_mantissa_of(s: &[char]) -> (yes: bool)
    ensures
        yes == is_mantissa(s@),
{
    let mut at: usize = 0;
    while at < s.len() && digit(s[at])
        invariant
            at <= s.len(),
            forall|i: int| 0 <= i < at ==> is_digit(#[trigger] s@[i]),
        decreases s.len() - at,
    {
        at += 1;
    }
    if at == s.len() {
        proof {
            if s.len() == 0 {
                assert(!is_mantissa(s@));
            }
        }
        return s.len() > 0;
    }
    proof {
        if is_mantissa(s@) {
            lemma_mantissa_chars(s@);
            let point = choose|point: int| point_splits(s@, point);
            if point < at {
                assert(s@[point] == '.');
            } else if at < point {
                assert(s@.take(point)[at as int] == s@[at as int]);
            }
            assert(point == at);
        }
    }
    if s[at] != '.' {
        return false;
    }
    let behind = slice_subrange(s, at + 1, s.len());
    let yes = s.len() > 1 && all_digits_of(behind);
    proof {
        assert(behind@ == s@.skip(at + 1));
        assert(all_digits(s@.take(at as int))) by {
            assert forall|i: int| 0 <= i < s@.take(at as int).len() implies is_digit(
                #[trigger] s@.take(at as int)[i],
            ) by {
                assert(s@.take(at as int)[i] == s@[i]);
            }
        }
        if yes {
            assert(point_splits(s@, at as int));
        }
    }
    yes
}

fn is_exponent_of(s: &[char]) -> (yes: bool)
    ensures
        yes == is_exponent(s@),
{
    let digits = without_sign(s);
    digits.len() > 0 && all_digits_of(digits)
}

fn is_number_of(s: &[char]) -> (yes: bool)
    ensures
        yes == is_number(s@),
{
    let mut at: usize = 0;
    while at < s.len() && !(s[at] == 'e' || s[at] == 'E')
        invariant
            at <= s.len(),
            forall|i: int| 0 <= i < at ==> !is_exponent_mark(#[trigger] s@[i]),
        decreases s.len() - at,
    {
        at += 1;
    }
    if at == s.len() {
        return is_mantissa_of(s);
    }
    let yes = is_mantissa_of(slice_subrange(s, 0, at)) && is_exponent_of(
        slice_subrange(s, at + 1, s.len()),
    );
    proof {
        assert(s@.subrange(0, at as int) == s@.take(at as int));
        assert(s@.subrange(at + 1, s.len() as int) == s@.skip(at + 1));
        assert(yes == exponent_splits(s@, at as int));
        if !yes {
            if is_mantissa(s@) {
                lemma_mantissa_chars(s@);
                assert(is_digit(s@[at as int]) || s@[at as int] == '.');
            }
            assert forall|other: int| !exponent_splits(s@, other) by {
                if exponent_splits(s@, other) {
                    if other > at {
                        lemma_mantissa_chars(s@.take(other));
                        assert(s@.take(other)[at as int] == s@[at as int]);
                    }
                }
            }
        }
    }
    yes
}

/// Whether `text` is a decimal number.
pub fn is_decimal_number(text: &str) -> (yes: bool)
    ensures
        yes == is_numeral(text@),
{
    let chars = to_chars(text);
    is_number_of(without_sign(chars.as_slice()))
}

} // verus!
