use vstd::prelude::*;
use vstd::string::*;
use crate::helpers::{dec_str, digit_char, digit_val, duration_str, is_digit_char, pad2_str};

verus! {

/// Well-formedness of a stored timestamp: exactly the shape
/// `"YYYY-MM-DD HH:MM:SS"`, with the month, day and time-of-day fields in
/// their calendar ranges.
pub open spec fn ts_valid(s: Seq<char>) -> bool {
    &&& s.len() == 19
    &&& is_digit_char(s[0]) && is_digit_char(s[1]) && is_digit_char(s[2]) && is_digit_char(s[3])
    &&& s[4] == '-'
    &&& is_digit_char(s[5]) && is_digit_char(s[6])
    &&& s[7] == '-'
    &&& is_digit_char(s[8]) && is_digit_char(s[9])
    &&& s[10] == ' '
    &&& is_digit_char(s[11]) && is_digit_char(s[12])
    &&& s[13] == ':'
    &&& is_digit_char(s[14]) && is_digit_char(s[15])
    &&& s[16] == ':'
    &&& is_digit_char(s[17]) && is_digit_char(s[18])
    &&& 1 <= month_of(s) <= 12
    &&& 1 <= day_of(s) <= 31
    &&& hour_of(s) <= 23
    &&& minute_of(s) <= 59
    &&& second_of(s) <= 59
}

pub open spec fn year_of(s: Seq<char>) -> int {
    digit_val(s[0]) * 1000 + digit_val(s[1]) * 100 + digit_val(s[2]) * 10 + digit_val(s[3])
}

pub open spec fn month_of(s: Seq<char>) -> int {
    digit_val(s[5]) * 10 + digit_val(s[6])
}

pub open spec fn day_of(s: Seq<char>) -> int {
    digit_val(s[8]) * 10 + digit_val(s[9])
}

pub open spec fn hour_of(s: Seq<char>) -> int {
    digit_val(s[11]) * 10 + digit_val(s[12])
}

pub open spec fn minute_of(s: Seq<char>) -> int {
    digit_val(s[14]) * 10 + digit_val(s[15])
}

pub open spec fn second_of(s: Seq<char>) -> int {
    digit_val(s[17]) * 10 + digit_val(s[18])
}

/// The calendar-date portion of a timestamp, `"YYYY-MM-DD"`.
pub open spec fn date_of(s: Seq<char>) -> Seq<char> {
    s.subrange(0, 10)
}

/// The time-of-day portion of a timestamp, `"HH:MM:SS"`.
pub open spec fn tod_of(s: Seq<char>) -> Seq<char> {
    s.subrange(11, 19)
}

/// The calendar date of a timestamp packed into one integer, year first.
pub open spec fn date_key(s: Seq<char>) -> int {
    year_of(s) * 10000 + month_of(s) * 100 + day_of(s)
}

/// The time of day of a timestamp as a count of seconds since midnight.
pub open spec fn secs_of(s: Seq<char>) -> int {
    hour_of(s) * 3600 + minute_of(s) * 60 + second_of(s)
}

/// A two-digit zero-padded writing of `n` (for `0 <= n < 100`).
pub open spec fn two_digit_str(n: int) -> Seq<char> {
    seq![digit_char(n / 10), digit_char(n % 10)]
}

/// A four-digit zero-padded writing of `n` (for `0 <= n < 10000`).
pub open spec fn four_digit_str(n: int) -> Seq<char> {
    seq![
        digit_char(n / 1000),
        digit_char((n / 100) % 10),
        digit_char((n / 10) % 10),
        digit_char(n % 10),
    ]
}

/// The `"YYYY-MM-DD"` string of a packed date key.
pub open spec fn date_str_of_key(k: int) -> Seq<char> {
    four_digit_str(k / 10000) + seq!['-'] + two_digit_str((k % 10000) / 100) + seq!['-']
        + two_digit_str(k % 100)
}

/// A decimal digit is written by the character it came from.
pub proof fn lemma_digit_char_val(c: char)
    requires
        is_digit_char(c),
    ensures
        digit_char(digit_val(c)) == c,
{
}

/// A two-digit number determines its digits.
pub proof fn lemma_two_digit_split(a: int, b: int)
    requires
        0 <= a <= 9,
        0 <= b <= 9,
    ensures
        (a * 10 + b) / 10 == a,
        (a * 10 + b) % 10 == b,
{
}

/// A four-digit number determines its digits.
pub proof fn lemma_four_digit_split(a: int, b: int, c: int, d: int)
    requires
        0 <= a <= 9,
        0 <= b <= 9,
        0 <= c <= 9,
        0 <= d <= 9,
    ensures
        (a * 1000 + b * 100 + c * 10 + d) / 1000 == a,
        ((a * 1000 + b * 100 + c * 10 + d) / 100) % 10 == b,
        ((a * 1000 + b * 100 + c * 10 + d) / 10) % 10 == c,
        (a * 1000 + b * 100 + c * 10 + d) % 10 == d,
{
    let n = a * 1000 + b * 100 + c * 10 + d;
    assert(n / 1000 == a) by (nonlinear_arith)
        requires
            n == a * 1000 + (b * 100 + c * 10 + d),
            0 <= a,
            0 <= b * 100 + c * 10 + d < 1000,
    ;
    assert(n / 100 == a * 10 + b) by (nonlinear_arith)
        requires
            n == (a * 10 + b) * 100 + (c * 10 + d),
            0 <= a * 10 + b,
            0 <= c * 10 + d < 100,
    ;
    assert(n / 10 == a * 100 + b * 10 + c) by (nonlinear_arith)
        requires
            n == (a * 100 + b * 10 + c) * 10 + d,
            0 <= a * 100 + b * 10 + c,
            0 <= d < 10,
    ;
    assert(n % 10 == d) by (nonlinear_arith)
        requires
            n == (a * 100 + b * 10 + c) * 10 + d,
            0 <= a * 100 + b * 10 + c,
            0 <= d < 10,
    ;
    assert((a * 10 + b) % 10 == b) by (nonlinear_arith)
        requires
            0 <= a,
            0 <= b < 10,
    ;
    assert((a * 100 + b * 10 + c) % 10 == c) by (nonlinear_arith)
        requires
            0 <= a * 10 + b,
            c == (a * 10 + b) * 10 + c - (a * 100 + b * 10 + c) + c,
            0 <= c < 10,
            a * 100 + b * 10 + c == (a * 10 + b) * 10 + c,
    ;
}

/// For two-digit numbers, the padded decimal writing is exactly the two digits.
pub proof fn lemma_pad2_two_digit(n: int)
    requires
        0 <= n < 100,
    ensures
        pad2_str(n as nat) == two_digit_str(n),
{
    if n < 10 {
        assert(pad2_str(n as nat) =~= two_digit_str(n));
    } else {
        assert(dec_str(n as nat) == dec_str((n / 10) as nat).push(digit_char(n % 10)));
        assert(dec_str((n / 10) as nat) == seq![digit_char(n / 10)]);
        assert(pad2_str(n as nat) =~= two_digit_str(n));
    }
}

/// The date portion of a valid timestamp is recovered from its packed key.
#[verifier::rlimit(100)]
#[verifier::spinoff_prover]
pub proof fn lemma_date_of_key(s: Seq<char>)
    requires
        ts_valid(s),
    ensures
        date_of(s) == date_str_of_key(date_key(s)),
{
    let y = year_of(s);
    let m = month_of(s);
    let d = day_of(s);
    let k = date_key(s);
    assert(0 <= y <= 9999);
    assert(k == y * 10000 + (m * 100 + d) && 0 <= m * 100 + d < 10000);
    assert(k / 10000 == y) by (nonlinear_arith)
        requires
            k == y * 10000 + (m * 100 + d),
            0 <= m * 100 + d < 10000,
            0 <= y,
    ;
    assert(k % 10000 == m * 100 + d) by (nonlinear_arith)
        requires
            k == y * 10000 + (m * 100 + d),
            0 <= m * 100 + d < 10000,
            0 <= y,
    ;
    lemma_two_digit_split(digit_val(s[5]), digit_val(s[6]));
    lemma_two_digit_split(digit_val(s[8]), digit_val(s[9]));
    assert((m * 100 + d) / 100 == m && (m * 100 + d) % 100 == d) by (nonlinear_arith)
        requires
            0 <= m < 100,
            0 <= d < 100,
    ;
    assert(k % 100 == d) by (nonlinear_arith)
        requires
            k == (y * 100 + m) * 100 + d,
            0 <= d < 100,
            0 <= y * 100 + m,
    ;
    lemma_four_digit_split(digit_val(s[0]), digit_val(s[1]), digit_val(s[2]), digit_val(s[3]));
    lemma_digit_char_val(s[0]);
    lemma_digit_char_val(s[1]);
    lemma_digit_char_val(s[2]);
    lemma_digit_char_val(s[3]);
    lemma_digit_char_val(s[5]);
    lemma_digit_char_val(s[6]);
    lemma_digit_char_val(s[8]);
    lemma_digit_char_val(s[9]);
    assert(four_digit_str(y) =~= seq![s[0], s[1], s[2], s[3]]);
    assert(two_digit_str(m) =~= seq![s[5], s[6]]);
    assert(two_digit_str(d) =~= seq![s[8], s[9]]);
    assert(date_str_of_key(k) == seq![s[0], s[1], s[2], s[3]] + seq!['-'] + seq![s[5], s[6]]
        + seq!['-'] + seq![s[8], s[9]]);
    assert(date_of(s) =~= seq![s[0], s[1], s[2], s[3]] + seq!['-'] + seq![s[5], s[6]] + seq!['-']
        + seq![s[8], s[9]]);
}

/// Two valid timestamps share a calendar date exactly when they share a
/// packed date key.
pub proof fn lemma_date_key_injective(a: Seq<char>, b: Seq<char>)
    requires
        ts_valid(a),
        ts_valid(b),
    ensures
        date_key(a) == date_key(b) <==> date_of(a) == date_of(b),
{
    if date_key(a) == date_key(b) {
        lemma_date_of_key(a);
        lemma_date_of_key(b);
    }
    if date_of(a) == date_of(b) {
        assert(a[0] == date_of(a)[0] && b[0] == date_of(b)[0]);
        assert(a[1] == date_of(a)[1] && b[1] == date_of(b)[1]);
        assert(a[2] == date_of(a)[2] && b[2] == date_of(b)[2]);
        assert(a[3] == date_of(a)[3] && b[3] == date_of(b)[3]);
        assert(a[5] == date_of(a)[5] && b[5] == date_of(b)[5]);
        assert(a[6] == date_of(a)[6] && b[6] == date_of(b)[6]);
        assert(a[8] == date_of(a)[8] && b[8] == date_of(b)[8]);
        assert(a[9] == date_of(a)[9] && b[9] == date_of(b)[9]);
    }
}

/// The time-of-day portion of a valid timestamp is the clock writing of its
/// second count.
#[verifier::rlimit(100)]
#[verifier::spinoff_prover]
pub proof fn lemma_tod_str(s: Seq<char>)
    requires
        ts_valid(s),
    ensures
        tod_of(s) == duration_str(secs_of(s) as nat),
{
    let h = hour_of(s);
    let mi = minute_of(s);
    let sc = second_of(s);
    let n = secs_of(s);
    assert(0 <= n <= 86399);
    assert(n / 3600 == h && n % 3600 == mi * 60 + sc) by (nonlinear_arith)
        requires
            n == h * 3600 + mi * 60 + sc,
            0 <= h,
            0 <= mi <= 59,
            0 <= sc <= 59,
    ;
    assert((mi * 60 + sc) / 60 == mi && (mi * 60 + sc) % 60 == sc) by (nonlinear_arith)
        requires
            0 <= mi,
            0 <= sc <= 59,
    ;
    lemma_pad2_two_digit(h);
    lemma_pad2_two_digit(mi);
    lemma_pad2_two_digit(sc);
    lemma_two_digit_split(digit_val(s[11]), digit_val(s[12]));
    lemma_two_digit_split(digit_val(s[14]), digit_val(s[15]));
    lemma_two_digit_split(digit_val(s[17]), digit_val(s[18]));
    lemma_digit_char_val(s[11]);
    lemma_digit_char_val(s[12]);
    lemma_digit_char_val(s[14]);
    lemma_digit_char_val(s[15]);
    lemma_digit_char_val(s[17]);
    lemma_digit_char_val(s[18]);
    assert(two_digit_str(h) =~= seq![s[11], s[12]]);
    assert(two_digit_str(mi) =~= seq![s[14], s[15]]);
    assert(two_digit_str(sc) =~= seq![s[17], s[18]]);
    assert(duration_str(n as nat) == seq![s[11], s[12]] + seq![':'] + seq![s[14], s[15]]
        + seq![':'] + seq![s[17], s[18]]);
    assert(tod_of(s) =~= seq![s[11], s[12]] + seq![':'] + seq![s[14], s[15]] + seq![':'] + seq![
        s[17],
        s[18],
    ]);
}

/// Writes a packed date key back as its `"YYYY-MM-DD"` string.
pub fn format_date_key(k: u64) -> (r: String)
    requires
        k <= 99999999,
    ensures
        r@ == date_str_of_key(k as int),
{
    let y = k / 10000;
    let m = (k % 10000) / 100;
    let d = k % 100;
    let mut s = String::from_str(crate::helpers::digit_literal(y / 1000));
    s.append(crate::helpers::digit_literal((y / 100) % 10));
    s.append(crate::helpers::digit_literal((y / 10) % 10));
    s.append(crate::helpers::digit_literal(y % 10));
    s.append("-");
    s.append(crate::helpers::pad2(m).as_str());
    s.append("-");
    s.append(crate::helpers::pad2(d).as_str());
    proof {
        reveal_strlit("-");
        lemma_pad2_two_digit(m as int);
        lemma_pad2_two_digit(d as int);
        assert(s@ =~= date_str_of_key(k as int));
    }
    s
}

/// Reads one character as a decimal digit.
fn digit_of(c: char) -> (r: Option<u64>)
    ensures
        r is Some <==> is_digit_char(c),
        r matches Some(v) ==> v == digit_val(c),
{
    let v = c as u32;
    if 48 <= v && v <= 57 {
        Some((v - 48) as u64)
    } else {
        None
    }
}

/// Parses a stored timestamp of the shape `"YYYY-MM-DD HH:MM:SS"`, returning
/// its packed date key and its time of day in seconds since midnight, or
/// `None` when the string is not a well-formed timestamp.
pub fn parse_timestamp(s: &str) -> (r: Option<(u64, u32)>)
    ensures
        r is Some <==> ts_valid(s@),
        r matches Some(p) ==> p.0 == date_key(s@) && p.1 == secs_of(s@),
{
    if s.unicode_len() != 19 {
        return None;
    }
    if !(s.get_char(4) == '-' && s.get_char(7) == '-' && s.get_char(10) == ' ' && s.get_char(13)
        == ':' && s.get_char(16) == ':') {
        return None;
    }
    let d0 = digit_of(s.get_char(0));
    let d1 = digit_of(s.get_char(1));
    let d2 = digit_of(s.get_char(2));
    let d3 = digit_of(s.get_char(3));
    let m0 = digit_of(s.get_char(5));
    let m1 = digit_of(s.get_char(6));
    let a0 = digit_of(s.get_char(8));
    let a1 = digit_of(s.get_char(9));
    let h0 = digit_of(s.get_char(11));
    let h1 = digit_of(s.get_char(12));
    let i0 = digit_of(s.get_char(14));
    let i1 = digit_of(s.get_char(15));
    let c0 = digit_of(s.get_char(17));
    let c1 = digit_of(s.get_char(18));
    match (d0, d1, d2, d3, m0, m1, a0, a1, h0, h1, i0, i1, c0, c1) {
        (
            Some(d0),
            Some(d1),
            Some(d2),
            Some(d3),
            Some(m0),
            Some(m1),
            Some(a0),
            Some(a1),
            Some(h0),
            Some(h1),
            Some(i0),
            Some(i1),
            Some(c0),
            Some(c1),
        ) => {
            let year = d0 * 1000 + d1 * 100 + d2 * 10 + d3;
            let month = m0 * 10 + m1;
            let day = a0 * 10 + a1;
            let hour = h0 * 10 + h1;
            let minute = i0 * 10 + i1;
            let second = c0 * 10 + c1;
            if 1 <= month && month <= 12 && 1 <= day && day <= 31 && hour <= 23 && minute <= 59
                && second <= 59 {
                let key = year * 10000 + month * 100 + day;
                let secs = (hour * 3600 + minute * 60 + second) as u32;
                Some((key, secs))
            } else {
                None
            }
        },
        _ => None,
    }
}

} // verus!
