//! Upper-case hexadecimal rendering of digests.
//!
//! Each byte is rendered on its own, without a leading zero: a byte
//! below 16 contributes a single digit. The rendered digests label the
//! duplicate bins in the engine's output.

use vstd::prelude::*;

verus! {

/// The upper-case hexadecimal digit for a value below 16.
pub open spec fn hex_digit(n: int) -> char {
    if n == 0 {
        '0'
    } else if n == 1 {
        '1'
    } else if n == 2 {
        '2'
    } else if n == 3 {
        '3'
    } else if n == 4 {
        '4'
    } else if n == 5 {
        '5'
    } else if n == 6 {
        '6'
    } else if n == 7 {
        '7'
    } else if n == 8 {
        '8'
    } else if n == 9 {
        '9'
    } else if n == 10 {
        'A'
    } else if n == 11 {
        'B'
    } else if n == 12 {
        'C'
    } else if n == 13 {
        'D'
    } else if n == 14 {
        'E'
    } else {
        'F'
    }
}

/// One byte rendered in upper-case hexadecimal with no leading zero.
pub open spec fn byte_hex(b: u8) -> Seq<char> {
    if b < 16 {
        seq![hex_digit(b as int)]
    } else {
        seq![hex_digit(b as int / 16), hex_digit(b as int % 16)]
    }
}

/// A byte sequence rendered byte by byte, leftmost byte first.
pub open spec fn upper_hex_of(s: Seq<u8>) -> Seq<char>
    decreases s.len(),
{
    if s.len() == 0 {
        Seq::empty()
    } else {
        byte_hex(s[0]) + upper_hex_of(s.skip(1))
    }
}

/// Relies on String::push, which appends the given character to the
/// end of the string.
#[verifier::external_body]
fn push_char(s: &mut String, c: char)
    ensures
        final(s)@ == old(s)@.push(c),
{
    s.push(c);
}

/// The upper-case hexadecimal digit character for a value below 16.
fn hex_digit_char(n: u8) -> (c: char)
    requires
        n < 16,
    ensures
        c == hex_digit(n as int),
{
    if n == 0 {
        '0'
    } else if n == 1 {
        '1'
    } else if n == 2 {
        '2'
    } else if n == 3 {
        '3'
    } else if n == 4 {
        '4'
    } else if n == 5 {
        '5'
    } else if n == 6 {
        '6'
    } else if n == 7 {
        '7'
    } else if n == 8 {
        '8'
    } else if n == 9 {
        '9'
    } else if n == 10 {
        'A'
    } else if n == 11 {
        'B'
    } else if n == 12 {
        'C'
    } else if n == 13 {
        'D'
    } else if n == 14 {
        'E'
    } else {
        'F'
    }
}

/// Renders a byte slice as the concatenation of each byte's upper-case
/// hexadecimal form, without per-byte zero padding.
#[allow(non_snake_case)]
pub fn toUpperHex(vec: &[u8]) -> (r: String)
    ensures
        r@ == upper_hex_of(vec@),
{
    let mut r = String::new();
    let n = vec.len();
    let mut i: usize = 0;
    proof {
        assert(r@ =~= Seq::<char>::empty());
        assert(vec@.skip(0) =~= vec@);
    }
    while i < n
        invariant
            n == vec@.len(),
            i <= n,
            upper_hex_of(vec@) == r@ + upper_hex_of(vec@.skip(i as int)),
        decreases n - i,
    {
        let b = vec[i];
        if b < 16 {
            push_char(&mut r, hex_digit_char(b));
        } else {
            push_char(&mut r, hex_digit_char(b / 16));
            push_char(&mut r, hex_digit_char(b % 16));
        }
        proof {
            assert(vec@.skip(i as int).skip(1) =~= vec@.skip(i + 1));
            assert(vec@.skip(i as int)[0] == vec@[i as int]);
        }
        i = i + 1;
    }
    proof {
        assert(vec@.skip(n as int) =~= Seq::<u8>::empty());
        assert(r@ =~= upper_hex_of(vec@));
    }
    r
}

} // verus!
