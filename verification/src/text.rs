//! Strings as sequences of characters: decoding, comparing, numerals.
use vstd::prelude::*;
use vstd::string::*;
use vstd::utf8::*;

verus! {

/// The error of [`core::str::from_utf8`].
#[verifier::external_type_specification]
#[verifier::external_body]
pub struct ExUtf8Error(core::str::Utf8Error);

/// [`core::str::from_utf8`] succeeds exactly on well-formed UTF-8, and the
/// string it gives back has those bytes.
pub assume_specification[ core::str::from_utf8 ](v: &[u8]) -> (r: Result<
    &str,
    core::str::Utf8Error,
>)
    ensures
        r is Ok <==> valid_utf8(v@),
        r matches Ok(s) ==> encode_utf8(s@) == v@,
;

/// [`String::push`] appends one character.
pub assume_specification[ String::push ](s: &mut String, c: char)
    ensures
        final(s)@ == old(s)@.push(c),
;

/// [`String::push_str`] appends a string.
pub assume_specification[ String::push_str ](s: &mut String, t: &str)
    ensures
        final(s)@ == old(s)@ + t@,
;

/// The text of `bytes`, if they are well-formed UTF-8.
pub open spec fn utf8_text(bytes: Seq<u8>) -> Option<Seq<char>> {
    if valid_utf8(bytes) {
        Some(decode_utf8(bytes))
    } else {
        None
    }
}

/// Decodes `bytes` as UTF-8.
pub fn decode_text(bytes: &[u8]) -> (r: Option<String>)
    ensures
        r is Some <==> utf8_text(bytes@) is Some,
        r matches Some(s) ==> Some(s@) == utf8_text(bytes@),
{
    match core::str::from_utf8(bytes) {
        Ok(s) => {
            proof {
                encode_utf8_decode_utf8(s@);
            }
            Some(s.to_owned())
        },
        Err(_) => None,
    }
}

/// A character for each digit value below 16, letters in upper case.
pub open spec fn upper_digit(d: nat) -> char {
    if d < 10 {
        ('0' as u32 + d) as u8 as char
    } else {
        ('A' as u32 + d - 10) as u8 as char
    }
}

/// A character for each digit value below 16, letters in lower case.
pub open spec fn lower_digit(d: nat) -> char {
    if d < 10 {
        ('0' as u32 + d) as u8 as char
    } else {
        ('a' as u32 + d - 10) as u8 as char
    }
}

/// `n` in hexadecimal, upper case, with exactly `width` digits (the lowest ones).
pub open spec fn upper_hex(n: nat, width: nat) -> Seq<char>
    decreases width,
{
    if width == 0 {
        Seq::empty()
    } else {
        upper_hex(n / 16, (width - 1) as nat).push(upper_digit(n % 16))
    }
}

/// `n` in hexadecimal, lower case, without leading zeros.
pub open spec fn lower_hex(n: nat) -> Seq<char>
    decreases n,
{
    if n < 16 {
        seq![lower_digit(n)]
    } else {
        lower_hex(n / 16).push(lower_digit(n % 16))
    }
}

/// `n` in hexadecimal, upper case, without leading zeros.
pub open spec fn upper_hex_min(n: nat) -> Seq<char>
    decreases n,
{
    if n < 16 {
        seq![upper_digit(n)]
    } else {
        upper_hex_min(n / 16).push(upper_digit(n % 16))
    }
}

/// `n` spaces.
pub open spec fn spaces(n: nat) -> Seq<char> {
    Seq::new(n, |i: int| ' ')
}

/// `s` with spaces in front, to a width of at least `w`.
pub open spec fn right(s: Seq<char>, w: nat) -> Seq<char> {
    if s.len() < w {
        spaces((w - s.len()) as nat) + s
    } else {
        s
    }
}

/// `s` with spaces behind it, to a width of at least `w`.
pub open spec fn left(s: Seq<char>, w: nat) -> Seq<char> {
    if s.len() < w {
        s + spaces((w - s.len()) as nat)
    } else {
        s
    }
}

/// `n` in decimal, without leading zeros.
pub open spec fn decimal(n: nat) -> Seq<char>
    decreases n,
{
    if n < 10 {
        seq![lower_digit(n)]
    } else {
        decimal(n / 10).push(lower_digit(n % 10))
    }
}

fn upper_digit_char(d: u8) -> (c: char)
    requires
        d < 16,
    ensures
        c == upper_digit(d as nat),
{
    if d < 10 {
        (48 + d) as char
    } else {
        (55 + d) as char
    }
}

fn lower_digit_char(d: u8) -> (c: char)
    requires
        d < 16,
    ensures
        c == lower_digit(d as nat),
{
    if d < 10 {
        (48 + d) as char
    } else {
        (87 + d) as char
    }
}

/// Appends `n` in upper-case hexadecimal, `width` digits wide.
pub fn push_upper_hex(out: &mut String, n: u32, width: u32)
    ensures
        final(out)@ == old(out)@ + upper_hex(n as nat, width as nat),
    decreases width,
{
    if width > 0 {
        push_upper_hex(out, n / 16, width - 1);
        out.push(upper_digit_char((n % 16) as u8));
    }
    assert(out@ =~= old(out)@ + upper_hex(n as nat, width as nat));
}

/// Appends `n` in lower-case hexadecimal without leading zeros.
pub fn push_lower_hex(out: &mut String, n: u32)
    ensures
        final(out)@ == old(out)@ + lower_hex(n as nat),
    decreases n,
{
    if n >= 16 {
        push_lower_hex(out, n / 16);
    }
    out.push(lower_digit_char((n % 16) as u8));
    assert(out@ =~= old(out)@ + lower_hex(n as nat));
}

/// Appends `n` in upper-case hexadecimal without leading zeros.
pub fn push_upper_hex_min(out: &mut String, n: u32)
    ensures
        final(out)@ == old(out)@ + upper_hex_min(n as nat),
    decreases n,
{
    if n >= 16 {
        push_upper_hex_min(out, n / 16);
    }
    out.push(upper_digit_char((n % 16) as u8));
    assert(out@ =~= old(out)@ + upper_hex_min(n as nat));
}

/// Appends spaces.
fn push_spaces(out: &mut String, n: usize)
    ensures
        final(out)@ == old(out)@ + spaces(n as nat),
{
    let mut i: usize = 0;
    assert(out@ =~= old(out)@ + spaces(0));
    while i < n
        invariant
            i <= n,
            out@ == old(out)@ + spaces(i as nat),
        decreases n - i,
    {
        out.push(' ');
        assert(out@ =~= old(out)@ + spaces((i + 1) as nat));
        i = i + 1;
    }
}

/// Appends `s` with spaces in front, to a width of at least `w`.
pub fn push_right(out: &mut String, s: &str, w: usize)
    ensures
        final(out)@ == old(out)@ + right(s@, w as nat),
{
    let n: usize = s.unicode_len();
    if n < w {
        push_spaces(out, w - n);
    }
    out.push_str(s);
    assert(out@ =~= old(out)@ + right(s@, w as nat));
}

/// Appends `s` with spaces behind it, to a width of at least `w`.
pub fn push_left(out: &mut String, s: &str, w: usize)
    ensures
        final(out)@ == old(out)@ + left(s@, w as nat),
{
    let n: usize = s.unicode_len();
    out.push_str(s);
    if n < w {
        push_spaces(out, w - n);
    }
    assert(out@ =~= old(out)@ + left(s@, w as nat));
}

/// Appends `n` in decimal.
pub fn push_decimal(out: &mut String, n: u64)
    ensures
        final(out)@ == old(out)@ + decimal(n as nat),
    decreases n,
{
    if n >= 10 {
        push_decimal(out, n / 10);
    }
    out.push(lower_digit_char((n % 10) as u8));
    assert(out@ =~= old(out)@ + decimal(n as nat));
}

/// Whether two byte strings are the same.
pub fn same_bytes(a: &[u8], b: &[u8]) -> (r: bool)
    ensures
        r == (a@ == b@),
{
    if a.len() != b.len() {
        return false;
    }
    let mut i: usize = 0;
    while i < a.len()
        invariant
            a@.len() == b@.len(),
            i <= a@.len(),
            forall|j: int| 0 <= j < i ==> a@[j] == b@[j],
        decreases a@.len() - i,
    {
        if a[i] != b[i] {
            return false;
        }
        i = i + 1;
    }
    assert(a@ =~= b@);
    true
}

/// Whether two strings are the same.
pub fn same_text(a: &str, b: &str) -> (r: bool)
    ensures
        r == (a@ == b@),
{
    proof {
        encode_utf8_decode_utf8(a@);
        encode_utf8_decode_utf8(b@);
    }
    same_bytes(a.as_bytes(), b.as_bytes())
}

} // verus!
