use vstd::prelude::*;
use vstd::string::*;

verus! {

/// The character that writes a single decimal digit.
pub open spec fn digit_char(d: int) -> char {
    if d == 0 {
        '0'
    } else if d == 1 {
        '1'
    } else if d == 2 {
        '2'
    } else if d == 3 {
        '3'
    } else if d == 4 {
        '4'
    } else if d == 5 {
        '5'
    } else if d == 6 {
        '6'
    } else if d == 7 {
        '7'
    } else if d == 8 {
        '8'
    } else {
        '9'
    }
}

/// The decimal writing of `n`, without leading zeros (a single `'0'` for zero).
pub open spec fn dec_str(n: nat) -> Seq<char>
    decreases n,
{
    if n < 10 {
        seq![digit_char(n as int)]
    } else {
        dec_str(n / 10).push(digit_char((n % 10) as int))
    }
}

/// The decimal writing of `n`, zero-padded on the left to at least two digits.
pub open spec fn pad2_str(n: nat) -> Seq<char> {
    if n < 10 {
        seq!['0', digit_char(n as int)]
    } else {
        dec_str(n)
    }
}

/// A second count written as a colon-separated clock string: hours (not wrapped
/// at 24), minutes and seconds, each zero-padded to at least two digits.
pub open spec fn duration_str(n: nat) -> Seq<char> {
    pad2_str(n / 3600) + seq![':'] + pad2_str((n % 3600) / 60) + seq![':'] + pad2_str(n % 60)
}

/// Whether `c` is a decimal digit.
pub open spec fn is_digit_char(c: char) -> bool {
    '0' <= c <= '9'
}

/// The value of the digit `c`.
pub open spec fn digit_val(c: char) -> int {
    c as int - '0' as int
}

/// A one-character string slice holding the decimal digit `d`.
pub(crate) fn digit_literal(d: u64) -> (r: &'static str)
    requires
        d < 10,
    ensures
        r@ =~= seq![digit_char(d as int)],
{
    proof {
        reveal_strlit("0");
        reveal_strlit("1");
        reveal_strlit("2");
        reveal_strlit("3");
        reveal_strlit("4");
        reveal_strlit("5");
        reveal_strlit("6");
        reveal_strlit("7");
        reveal_strlit("8");
        reveal_strlit("9");
    }
    if d == 0 {
        "0"
    } else if d == 1 {
        "1"
    } else if d == 2 {
        "2"
    } else if d == 3 {
        "3"
    } else if d == 4 {
        "4"
    } else if d == 5 {
        "5"
    } else if d == 6 {
        "6"
    } else if d == 7 {
        "7"
    } else if d == 8 {
        "8"
    } else {
        "9"
    }
}

/// Writes `n` in decimal, without leading zeros.
pub(crate) fn u64_to_dec(n: u64) -> (r: String)
    ensures
        r@ == dec_str(n as nat),
    decreases n,
{
    if n < 10 {
        String::from_str(digit_literal(n))
    } else {
        let prefix = u64_to_dec(n / 10);
        let r = prefix.concat(digit_literal(n % 10));
        proof {
            assert(r@ =~= dec_str(n as nat));
        }
        r
    }
}

/// Writes `n` in decimal, zero-padded to at least two digits.
pub(crate) fn pad2(n: u64) -> (r: String)
    ensures
        r@ == pad2_str(n as nat),
{
    if n < 10 {
        proof {
            reveal_strlit("0");
        }
        let z = String::from_str("0");
        let r = z.concat(digit_literal(n));
        proof {
            assert(r@ =~= pad2_str(n as nat));
        }
        r
    } else {
        u64_to_dec(n)
    }
}

/// Transforms a number of seconds into a colon-separated clock string
/// (hours, minutes, seconds, each zero-padded to two digits; the hour
/// field is not wrapped at 24).
pub fn format_duration(elapsed: u64) -> (r: String)
    ensures
        r@ == duration_str(elapsed as nat),
{
    let hours = elapsed / 3600;
    let minutes = (elapsed % 3600) / 60;
    let seconds = elapsed % 60;
    let mut s = pad2(hours);
    s.append(":");
    s.append(pad2(minutes).as_str());
    s.append(":");
    s.append(pad2(seconds).as_str());
    proof {
        reveal_strlit(":");
        assert(s@ =~= duration_str(elapsed as nat));
    }
    s
}

} // verus!
