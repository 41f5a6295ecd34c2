//! What numerals and padded texts say.
use vstd::prelude::*;

use crate::text::{
    decimal, left, lower_digit, lower_hex, right, spaces, upper_digit, upper_hex, upper_hex_min,
};

verus! {

/// Whether `c` is a digit below sixteen, a letter in upper case.
pub open spec fn is_upper(c: char) -> bool {
    '0' <= c <= '9' || 'A' <= c <= 'F'
}

/// Whether `c` is a digit below sixteen, a letter in lower case.
pub open spec fn is_lower(c: char) -> bool {
    '0' <= c <= '9' || 'a' <= c <= 'f'
}

/// The value of a digit.
pub open spec fn digit_value(c: char) -> int {
    if c <= '9' {
        c as int - '0' as int
    } else if c <= 'F' {
        c as int - 'A' as int + 10
    } else {
        c as int - 'a' as int + 10
    }
}

/// The number that the digits say to the base `b`.
pub open spec fn numeral(s: Seq<char>, b: int) -> int
    decreases s.len(),
{
    if s.len() == 0 {
        0
    } else {
        numeral(s.drop_last(), b) * b + digit_value(s.last())
    }
}

/// Sixteen to the power of `w`.
pub open spec fn sixteen_to(w: nat) -> int
    decreases w,
{
    if w == 0 {
        1
    } else {
        16 * sixteen_to((w - 1) as nat)
    }
}

proof fn lemma_digits(d: nat)
    requires
        d < 16,
    ensures
        is_upper(upper_digit(d)),
        is_lower(lower_digit(d)),
        digit_value(upper_digit(d)) == d,
        digit_value(lower_digit(d)) == d,
        d < 10 ==> '0' <= lower_digit(d) <= '9',
        upper_digit(d) == '0' <==> d == 0,
        lower_digit(d) == '0' <==> d == 0,
{
}

/// A numeral of a given width has that width, hexadecimal digits only, and says the
/// number, if the number fits.
pub proof fn lemma_upper_hex(n: nat, w: nat)
    requires
        n < sixteen_to(w),
    ensures
        upper_hex(n, w).len() == w,
        numeral(upper_hex(n, w), 16) == n,
        forall|i: int| 0 <= i < w ==> is_upper(#[trigger] upper_hex(n, w)[i]),
    decreases w,
{
    if w > 0 {
        lemma_upper_hex(n / 16, (w - 1) as nat);
        lemma_digits(n % 16);
        let s = upper_hex(n, w);
        assert(s.drop_last() =~= upper_hex(n / 16, (w - 1) as nat));
        assert forall|i: int| 0 <= i < w implies is_upper(#[trigger] s[i]) by {
            if i < w - 1 {
                assert(s[i] == upper_hex(n / 16, (w - 1) as nat)[i]);
            }
        }
    }
}

/// A 32-bit number fits into eight hexadecimal digits.
pub proof fn lemma_eight_digits(n: u32)
    ensures
        upper_hex(n as nat, 8).len() == 8,
        numeral(upper_hex(n as nat, 8), 16) == n,
        forall|i: int| 0 <= i < 8 ==> is_upper(#[trigger] upper_hex(n as nat, 8)[i]),
{
    reveal_with_fuel(sixteen_to, 9);
    lemma_upper_hex(n as nat, 8);
}

/// A numeral without leading zeros says the number, and starts with a zero only where
/// it says zero.
pub proof fn lemma_upper_hex_min(n: nat)
    ensures
        upper_hex_min(n).len() > 0,
        numeral(upper_hex_min(n), 16) == n,
        upper_hex_min(n)[0] == '0' ==> n == 0 && upper_hex_min(n).len() == 1,
        forall|i: int| 0 <= i < upper_hex_min(n).len() ==> is_upper(#[trigger] upper_hex_min(n)[i]),
    decreases n,
{
    lemma_digits(n % 16);
    let s = upper_hex_min(n);
    if n >= 16 {
        lemma_upper_hex_min(n / 16);
        let t = upper_hex_min(n / 16);
        assert(s.drop_last() =~= t);
        assert forall|i: int| 0 <= i < s.len() implies is_upper(#[trigger] s[i]) by {
            if i < t.len() {
                assert(s[i] == t[i]);
            }
        }
    } else {
        assert(s.drop_last() =~= Seq::empty());
        assert(numeral(s.drop_last(), 16) == 0);
    }
}

/// A numeral without leading zeros says the number, and starts with a zero only where
/// it says zero.
pub proof fn lemma_lower_hex(n: nat)
    ensures
        lower_hex(n).len() > 0,
        numeral(lower_hex(n), 16) == n,
        lower_hex(n)[0] == '0' ==> n == 0 && lower_hex(n).len() == 1,
        forall|i: int| 0 <= i < lower_hex(n).len() ==> is_lower(#[trigger] lower_hex(n)[i]),
    decreases n,
{
    lemma_digits(n % 16);
    let s = lower_hex(n);
    if n >= 16 {
        lemma_lower_hex(n / 16);
        let t = lower_hex(n / 16);
        assert(s.drop_last() =~= t);
        assert forall|i: int| 0 <= i < s.len() implies is_lower(#[trigger] s[i]) by {
            if i < t.len() {
                assert(s[i] == t[i]);
            }
        }
    } else {
        assert(s.drop_last() =~= Seq::empty());
        assert(numeral(s.drop_last(), 16) == 0);
    }
}

/// A decimal numeral says the number, with decimal digits only, and starts with a zero
/// only where it says zero.
pub proof fn lemma_decimal(n: nat)
    ensures
        decimal(n).len() > 0,
        numeral(decimal(n), 10) == n,
        decimal(n)[0] == '0' ==> n == 0 && decimal(n).len() == 1,
        forall|i: int| 0 <= i < decimal(n).len() ==> '0' <= #[trigger] decimal(n)[i] <= '9',
    decreases n,
{
    lemma_digits(n % 10);
    let s = decimal(n);
    if n >= 10 {
        lemma_decimal(n / 10);
        let t = decimal(n / 10);
        assert(s.drop_last() =~= t);
        assert forall|i: int| 0 <= i < s.len() implies '0' <= #[trigger] s[i] <= '9' by {
            if i < t.len() {
                assert(s[i] == t[i]);
            }
        }
    } else {
        assert(s.drop_last() =~= Seq::empty());
        assert(numeral(s.drop_last(), 10) == 0);
    }
}

/// A padded text is as wide as asked for, or as the text where that is wider; the text
/// stands at its side of it, and spaces are all else.
pub proof fn lemma_padded(s: Seq<char>, w: nat)
    ensures
        right(s, w).len() == (if s.len() < w { w } else { s.len() }),
        left(s, w).len() == right(s, w).len(),
        s.is_suffix_of(right(s, w)),
        s.is_prefix_of(left(s, w)),
        forall|i: int|
            0 <= i < right(s, w).len() - s.len() ==> #[trigger] right(s, w)[i] == ' ',
        forall|i: int| s.len() <= i < left(s, w).len() ==> #[trigger] left(s, w)[i] == ' ',
{
    assert(s =~= right(s, w).subrange(right(s, w).len() - s.len(), right(s, w).len() as int));
    assert(s =~= left(s, w).subrange(0, s.len() as int));
}

} // verus!
