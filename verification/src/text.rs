//! Verified decimal text rendering for the display methods of the field
//! types: unpadded and zero-padded numbers built character by character.

use vstd::prelude::*;

use vstd::string::StringExecFns;

verus! {

/// The character of one decimal digit.
pub open spec fn digit_char(d: int) -> char {
    if d == 0 {
        '0'
    } else if d == 1 {
        '1'
    } else if d == 2 {
        '2'
    } else if d == 3 {
        '3'
    } else if d == 4 {
        '4'
    } else if d == 5 {
        '5'
    } else if d == 6 {
        '6'
    } else if d == 7 {
        '7'
    } else if d == 8 {
        '8'
    } else {
        '9'
    }
}

/// The decimal digits of `n`, most significant first, without padding.
pub open spec fn dec_digits(n: nat) -> Seq<char>
    decreases n,
{
    if n < 10 {
        seq![digit_char(n as int)]
    } else {
        dec_digits(n / 10) + seq![digit_char((n % 10) as int)]
    }
}

/// `n` rendered as the `{}` format operator renders a signed integer.
pub open spec fn int_text(n: int) -> Seq<char> {
    if n < 0 {
        seq!['-'] + dec_digits((-n) as nat)
    } else {
        dec_digits(n as nat)
    }
}

/// `n` rendered as the `{:02}` format operator renders it: two digits with
/// a leading zero, or all digits when it needs more than two.
pub open spec fn pad2_text(n: nat) -> Seq<char> {
    if n < 100 {
        seq![digit_char((n / 10) as int), digit_char((n % 10) as int)]
    } else {
        dec_digits(n)
    }
}

/// `n` rendered as the `{:03}` format operator renders it.
pub open spec fn pad3_text(n: nat) -> Seq<char> {
    if n < 1000 {
        seq![
            digit_char((n / 100) as int),
            digit_char(((n / 10) % 10) as int),
            digit_char((n % 10) as int),
        ]
    } else {
        dec_digits(n)
    }
}

/// The one-character string of a decimal digit.
fn digit_str(d: u8) -> (r: &'static str)
    requires
        d < 10,
    ensures
        r@ == seq![digit_char(d as int)],
{
    proof {
        reveal_strlit("0");
        reveal_strlit("1");
        reveal_strlit("2");
        reveal_strlit("3");
        reveal_strlit("4");
        reveal_strlit("5");
        reveal_strlit("6");
        reveal_strlit("7");
        reveal_strlit("8");
        reveal_strlit("9");
    }
    match d {
        0 => "0",
        1 => "1",
        2 => "2",
        3 => "3",
        4 => "4",
        5 => "5",
        6 => "6",
        7 => "7",
        8 => "8",
        _ => "9",
    }
}

/// Appends the decimal digits of `n`.
pub fn push_u32_text(s: &mut String, n: u32)
    ensures
        final(s)@ == old(s)@ + dec_digits(n as nat),
    decreases n,
{
    if n >= 10 {
        push_u32_text(s, n / 10);
    }
    let d = (n % 10) as u8;
    s.append(digit_str(d));
    proof {
        assert(s@ =~= old(s)@ + dec_digits(n as nat));
    }
}

/// Appends `n` with its sign, as the `{}` format operator would.
pub fn push_i32_text(s: &mut String, n: i32)
    ensures
        final(s)@ == old(s)@ + int_text(n as int),
{
    if n < 0 {
        proof {
            reveal_strlit("-");
        }
        s.append("-");
        let m = (-(n as i64)) as u32;
        push_u32_text(s, m);
        proof {
            assert(s@ =~= old(s)@ + int_text(n as int));
        }
    } else {
        push_u32_text(s, n as u32);
    }
}

/// Appends `n` zero-padded to two digits, as `{:02}` would.
pub fn push_pad2_text(s: &mut String, n: u8)
    ensures
        final(s)@ == old(s)@ + pad2_text(n as nat),
{
    if n >= 100 {
        push_u32_text(s, n as u32);
    } else {
        s.append(digit_str(n / 10));
        s.append(digit_str(n % 10));
        proof {
            assert(s@ =~= old(s)@ + pad2_text(n as nat));
        }
    }
}

/// Appends `n` zero-padded to three digits, as `{:03}` would.
pub fn push_pad3_text(s: &mut String, n: u16)
    ensures
        final(s)@ == old(s)@ + pad3_text(n as nat),
{
    if n >= 1000 {
        push_u32_text(s, n as u32);
    } else {
        s.append(digit_str((n / 100) as u8));
        s.append(digit_str(((n / 10) % 10) as u8));
        s.append(digit_str((n % 10) as u8));
        proof {
            assert(s@ =~= old(s)@ + pad3_text(n as nat));
        }
    }
}

} // verus!
