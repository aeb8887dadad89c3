//! The written form of scores and e-values.
//!
//! A number is written in base 10: an optional sign, then either digits with
//! at most one point among them and at least one digit in all, optionally
//! followed by `e` or `E`, an optional sign and one or more digits; or one
//! of the words `inf`, `infinity` and `nan` in any case. Nothing else is a
//! number: no spaces, no digit separators, no other base.

use vstd::prelude::*;
use crate::text::is_digit;

verus! {

/// The first position at or after `from` that holds no digit, or the length
/// of `s` if there is none.
pub open spec fn digits_end(s: Seq<u8>, from: int) -> int
    decreases s.len() - from,
{
    if 0 <= from < s.len() && is_digit(s[from]) {
        digits_end(s, from + 1)
    } else {
        from
    }
}

/// 1 if a sign stands in `s` at `at`, else 0.
pub open spec fn sign_len(s: Seq<u8>, at: int) -> int {
    if 0 <= at < s.len() && (s[at] == 43 || s[at] == 45) {
        1
    } else {
        0
    }
}

/// The lower-case form of an upper-case ASCII letter; any other byte itself.
pub open spec fn lower(b: u8) -> u8 {
    if 65 <= b && b <= 90 {
        (b + 32) as u8
    } else {
        b
    }
}

/// Whether `s` from `from` on is the lower-case word `word`, in any case.
pub open spec fn spells(s: Seq<u8>, from: int, word: Seq<u8>) -> bool {
    s.len() - from == word.len() && forall|k: int|
        0 <= k < word.len() ==> lower(#[trigger] s[from + k]) == word[k]
}

/// `inf`.
pub open spec fn inf_word() -> Seq<u8> {
    seq![105u8, 110u8, 102u8]
}

/// `infinity`.
pub open spec fn infinity_word() -> Seq<u8> {
    seq![105u8, 110u8, 102u8, 105u8, 110u8, 105u8, 116u8, 121u8]
}

/// `nan`.
pub open spec fn nan_word() -> Seq<u8> {
    seq![110u8, 97u8, 110u8]
}

/// Whether `s` from `from` on is digits with at most one point and at least
/// one digit, optionally followed by an exponent.
pub open spec fn is_decimal(s: Seq<u8>, from: int) -> bool {
    let whole_end = digits_end(s, from);
    let point = whole_end < s.len() && s[whole_end] == 46;
    let fraction_end = if point {
        digits_end(s, whole_end + 1)
    } else {
        whole_end
    };
    let digit_count = if point {
        fraction_end - from - 1
    } else {
        fraction_end - from
    };
    let exponent = fraction_end < s.len() && (s[fraction_end] == 101 || s[fraction_end] == 69);
    let exponent_digits = fraction_end + 1 + sign_len(s, fraction_end + 1);
    digit_count >= 1 && if exponent {
        exponent_digits < s.len() && digits_end(s, exponent_digits) == s.len()
    } else {
        fraction_end == s.len()
    }
}

/// Whether `s` is the written form of a number.
pub open spec fn is_number(s: Seq<u8>) -> bool {
    let from = sign_len(s, 0);
    spells(s, from, inf_word()) || spells(s, from, infinity_word()) || spells(s, from, nan_word())
        || is_decimal(s, from)
}

/// Finds the end of the digits that start at `from`.
fn skip_digits(s: &[u8], from: usize) -> (r: usize)
    requires
        from <= s.len(),
    ensures
        r == digits_end(s@, from as int),
        from <= r <= s.len(),
{
    let mut i: usize = from;
    while i < s.len() && 48 <= s[i] && s[i] <= 57
        invariant
            from <= i <= s.len(),
            digits_end(s@, from as int) == digits_end(s@, i as int),
        decreases s.len() - i,
    {
        i += 1;
    }
    i
}

/// Tells whether `s` from `from` on is `word` in any case.
fn spelled(s: &[u8], from: usize, word: &[u8]) -> (r: bool)
    requires
        from <= s.len(),
    ensures
        r == spells(s@, from as int, word@),
{
    if s.len() - from != word.len() {
        return false;
    }
    let mut k: usize = 0;
    while k < word.len()
        invariant
            k <= word.len(),
            from <= s.len(),
            s.len() - from == word.len(),
            forall|j: int| 0 <= j < k ==> lower(#[trigger] s@[from + j]) == word@[j],
        decreases word.len() - k,
    {
        let b: u8 = s[from + k];
        let l: u8 = if 65 <= b && b <= 90 {
            b + 32
        } else {
            b
        };
        if l != word[k] {
            assert(lower(s@[from + k]) != word@[k as int]);
            return false;
        }
        k += 1;
    }
    true
}

/// Tells whether `s` is the written form of a number.
pub fn is_number_text(s: &[u8]) -> (r: bool)
    ensures
        r == is_number(s@),
{
    let from: usize = if s.len() > 0 && (s[0] == 43 || s[0] == 45) {
        1
    } else {
        0
    };
    let inf: [u8; 3] = [105, 110, 102];
    assert(inf@ =~= inf_word());
    let infinity: [u8; 8] = [105, 110, 102, 105, 110, 105, 116, 121];
    assert(infinity@ =~= infinity_word());
    let nan: [u8; 3] = [110, 97, 110];
    assert(nan@ =~= nan_word());
    if spelled(s, from, inf.as_slice()) || spelled(s, from, infinity.as_slice()) || spelled(
        s,
        from,
        nan.as_slice(),
    ) {
        return true;
    }
    let whole_end: usize = skip_digits(s, from);
    let point: bool = whole_end < s.len() && s[whole_end] == 46;
    let fraction_end: usize = if point {
        skip_digits(s, whole_end + 1)
    } else {
        whole_end
    };
    let digit_count: usize = if point {
        fraction_end - from - 1
    } else {
        fraction_end - from
    };
    if digit_count < 1 {
        return false;
    }
    if fraction_end < s.len() && (s[fraction_end] == 101 || s[fraction_end] == 69) {
        let after: usize = fraction_end + 1;
        let exponent_digits: usize = if after < s.len() && (s[after] == 43 || s[after] == 45) {
            after + 1
        } else {
            after
        };
        exponent_digits < s.len() && skip_digits(s, exponent_digits) == s.len()
    } else {
        fraction_end == s.len()
    }
}

} // verus!
