//! Building text: decimal and hexadecimal numbers, padding, appending.
use vstd::prelude::*;
use crate::unicode::push_char;

verus! {

/// The character of a decimal digit.
pub open spec fn digit_char(d: nat) -> char {
    ((d + 48) as u8) as char
}

/// The decimal representation of `n`, without leading zeros.
pub open spec fn decimal(n: nat) -> Seq<char>
    decreases n,
{
    if n < 10 {
        seq![digit_char(n)]
    } else {
        decimal(n / 10).push(digit_char(n % 10))
    }
}

/// `n` spaces.
pub open spec fn spaces(n: nat) -> Seq<char> {
    Seq::new(n, |i: int| ' ')
}

/// `s` right-aligned in a field of `width` characters, as `{:>width}` does.
pub open spec fn pad_left(s: Seq<char>, width: nat) -> Seq<char> {
    if s.len() < width {
        spaces((width - s.len()) as nat) + s
    } else {
        s
    }
}

/// The character of a hexadecimal digit, upper case.
pub open spec fn hex_char(d: nat) -> char {
    if d < 10 {
        digit_char(d)
    } else {
        ((d - 10 + 65) as u8) as char
    }
}

/// A byte as two upper-case hexadecimal digits, as `{:02X}` does.
pub open spec fn hex_byte(b: u8) -> Seq<char> {
    seq![hex_char((b / 16) as nat), hex_char((b % 16) as nat)]
}

pub proof fn lemma_decimal_len(n: nat)
    ensures
        decimal(n).len() >= 1,
    decreases n,
{
    if n >= 10 {
        lemma_decimal_len(n / 10);
    }
}

pub(crate) fn push_str(s: &mut String, t: &str)
    ensures
        final(s)@ == old(s)@ + t@,
{
    s.append(t);
}

/// Appends the decimal digits of `n`.
pub(crate) fn push_decimal(s: &mut String, n: u64)
    ensures
        final(s)@ == old(s)@ + decimal(n as nat),
    decreases n,
{
    if n >= 10 {
        push_decimal(s, n / 10);
    }
    let d = (n % 10) as u8;
    push_char(s, (48u8 + d) as char);
    proof {
        assert(old(s)@ + decimal(n as nat) =~= final(s)@) by {
            if n >= 10 {
                assert(decimal(n as nat) == decimal((n / 10) as nat).push(digit_char((n % 10) as nat)));
            }
        }
    }
}

/// Appends the decimal digits of `n`, right-aligned in `width` characters.
pub(crate) fn push_decimal_padded(s: &mut String, n: u64, width: usize)
    ensures
        final(s)@ == old(s)@ + pad_left(decimal(n as nat), width as nat),
{
    let mut digits = String::new();
    push_decimal(&mut digits, n);
    let len = digits.unicode_len();
    if len < width {
        let mut k: usize = 0;
        let ghost start = s@;
        while k < width - len
            invariant
                k <= width - len,
                len < width,
                s@ == start + spaces(k as nat),
            decreases width - len - k,
        {
            push_char(s, ' ');
            k = k + 1;
            proof {
                assert(s@ =~= start + spaces(k as nat));
            }
        }
    }
    push_str(s, digits.as_str());
    proof {
        let d = decimal(n as nat);
        assert(digits@ =~= d);
        if len < width {
            assert(s@ =~= old(s)@ + pad_left(d, width as nat));
        } else {
            assert(s@ =~= old(s)@ + pad_left(d, width as nat));
        }
    }
}

/// Appends a byte as two upper-case hexadecimal digits.
pub(crate) fn push_hex_byte(s: &mut String, b: u8)
    ensures
        final(s)@ == old(s)@ + hex_byte(b),
{
    let hi = b / 16;
    let lo = b % 16;
    let c_hi = if hi < 10 { (48u8 + hi) as char } else { (55u8 + hi) as char };
    let c_lo = if lo < 10 { (48u8 + lo) as char } else { (55u8 + lo) as char };
    push_char(s, c_hi);
    push_char(s, c_lo);
    proof {
        assert(s@ =~= old(s)@ + hex_byte(b));
    }
}

} // verus!
