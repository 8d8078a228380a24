//! String building and comparison helpers used across the library.

use vstd::prelude::*;
use vstd::utf8::*;

verus! {

/// Decimal digits of a natural number, most significant first.
pub open spec fn decimal(n: nat) -> Seq<char>
    decreases n,
{
    if n < 10 {
        seq![digit_char(n)]
    } else {
        decimal(n / 10).push(digit_char(n % 10))
    }
}

/// The ASCII character for a decimal digit.
pub open spec fn digit_char(d: nat) -> char {
    ((d + 48) as u32) as char
}

/// Decimal text of a signed integer, with a leading `-` when negative.
pub open spec fn signed_decimal(i: int) -> Seq<char> {
    if i < 0 {
        seq!['-'] + decimal((-i) as nat)
    } else {
        decimal(i as nat)
    }
}

/// Appends one character to a string (`String::push`).
#[verifier::external_body]
pub(crate) fn push_char(s: &mut String, c: char)
    ensures
        final(s)@ == old(s)@.push(c),
{
    s.push(c)
}

/// Removes and returns the last character of a string, if any (`String::pop`).
#[verifier::external_body]
pub(crate) fn pop_char(s: &mut String) -> (r: Option<char>)
    ensures
        old(s)@.len() == 0 ==> r is None && final(s)@ == old(s)@,
        old(s)@.len() > 0 ==> r == Some(old(s)@.last()) && final(s)@ == old(s)@.drop_last(),
{
    s.pop()
}

/// Appends the decimal text of `n` to `out`.
pub fn push_decimal(out: &mut String, n: u64)
    ensures
        final(out)@ == old(out)@ + decimal(n as nat),
    decreases n,
{
    if n >= 10 {
        push_decimal(out, n / 10);
    }
    let d: u64 = n % 10;
    let c: char = (d as u8 + 48u8) as char;
    assert(c == digit_char((n % 10) as nat));
    push_char(out, c);
}

} // verus!

verus! {

/// Appends the decimal text of a signed number to `out`.
pub fn push_signed_decimal(out: &mut String, n: i32)
    ensures
        final(out)@ == old(out)@ + signed_decimal(n as int),
{
    if n < 0 {
        push_char(out, '-');
        let magnitude: i64 = -(n as i64);
        let ghost mid = out@;
        push_decimal(out, magnitude as u64);
        assert(out@ =~= old(out)@ + (seq!['-'] + decimal((-n) as nat)));
    } else {
        push_decimal(out, n as u64);
    }
}


/// Whether two texts are equal, compared by their UTF-8 bytes.
pub fn same_text(a: &str, b: &str) -> (r: bool)
    ensures
        r == (a@ == b@),
{
    let x = a.as_bytes();
    let y = b.as_bytes();
    assert(a@ == b@ ==> x@ == y@);
    if x.len() != y.len() {
        return false;
    }
    let mut i: usize = 0;
    while i < x.len()
        invariant
            i <= x@.len(),
            x@.len() == y@.len(),
            a@ == b@ ==> x@ == y@,
            forall|k: int| 0 <= k < i ==> x@[k] == y@[k],
        decreases x@.len() - i,
    {
        if x[i] != y[i] {
            return false;
        }
        i = i + 1;
    }
    proof {
        broadcast use encode_utf8_decode_utf8;
        assert(x@ =~= y@);
        assert(decode_utf8(encode_utf8(a@)) == a@);
        assert(decode_utf8(encode_utf8(b@)) == b@);
    }
    true
}

/// Whether a text starts with `-`.
pub fn starts_with_dash(a: &str) -> (r: bool)
    ensures
        r == (a@.len() > 0 && a@[0] == '-'),
{
    let x = a.as_bytes();
    if x.len() == 0 {
        proof {
            if a@.len() > 0 {
                encode_utf8_first_scalar(a@);
            }
        }
        return false;
    }
    proof {
        if a@.len() == 0 {
            assert(encode_utf8(a@).len() == 0);
        }
        encode_utf8_first_scalar(a@);
        let c = a@[0] as u32;
        char_is_scalar(a@[0]);
        if c == 45 {
            assert(has_width_1_encoding(c));
            assert(leading_byte_width_1(c) == 45) by (bit_vector)
                requires c == 45u32;
            assert(encode_utf8(a@)[0] == 45);
        }
        if x@[0] == 45 {
            let b0 = x@[0];
            assert(is_leading_byte_width_1(b0) && codepoint_width_1(b0) == 45) by (bit_vector)
                requires b0 == 45u8;
            assert(decode_first_scalar(encode_utf8(a@)) == 45);
            char_u32_cast(a@[0], c);
        }
    }
    x[0] == 45
}

} // verus!
