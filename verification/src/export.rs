use vstd::prelude::*;
use vstd::string::*;
use crate::helpers::{dec_str, digit_char, digit_val, duration_str, format_duration,
    is_digit_char, pad2_str, u64_to_dec};
use crate::aggregate::{aggregatable, group_of, is_aggregate_of, is_earliest, is_latest,
    lemma_group_member_valid, row_matches};
use crate::models::{History, Record};
use crate::timestamp::{date_of, secs_of, ts_valid};

verus! {

/// A field that survives the delimited format: free of separators.
pub open spec fn csv_field_ok(s: Seq<char>) -> bool {
    forall|i: int| 0 <= i < s.len() ==> s[i] != ',' && s[i] != '\n'
}

/// A history row that can be exported: non-negative pauses and clean fields.
pub open spec fn history_wf(h: History) -> bool {
    &&& h.total_pauses >= 0
    &&& csv_field_ok(h.record_date@)
    &&& csv_field_ok(h.start_time@)
    &&& csv_field_ok(h.end_time@)
}

/// Every row of a history can be exported.
pub open spec fn rows_wf(hs: Seq<History>) -> bool {
    forall|i: int| 0 <= i < hs.len() ==> history_wf(#[trigger] hs[i])
}

/// The export's header line.
pub open spec fn header_str() -> Seq<char> {
    "Date,Start,End,Total,Pauses"@
}

/// One exported row: the date, start and end fields as stored, the total
/// duration written as a clock string, and the pause count in decimal.
pub open spec fn row_str(h: History) -> Seq<char> {
    h.record_date@ + seq![','] + h.start_time@ + seq![','] + h.end_time@ + seq![',']
        + duration_str(h.total_duration as nat) + seq![','] + dec_str(h.total_pauses as nat)
}

/// The exported rows, one line per row, each line ended by a newline.
pub open spec fn rows_str(hs: Seq<History>) -> Seq<char>
    decreases hs.len(),
{
    if hs.len() == 0 {
        Seq::empty()
    } else {
        row_str(hs[0]) + seq!['\n'] + rows_str(hs.drop_first())
    }
}

/// The full exported file: the header line, then one line per row.
pub open spec fn csv_text(hs: Seq<History>) -> Seq<char> {
    header_str() + seq!['\n'] + rows_str(hs)
}

/// Decimal writings hold digits only.
pub proof fn lemma_dec_str_digits(n: nat)
    ensures
        forall|i: int| 0 <= i < dec_str(n).len() ==> is_digit_char(#[trigger] dec_str(n)[i]),
    decreases n,
{
    if n >= 10 {
        lemma_dec_str_digits(n / 10);
        assert forall|i: int| 0 <= i < dec_str(n).len() implies is_digit_char(
            #[trigger] dec_str(n)[i],
        ) by {
            if i < dec_str(n).len() - 1 {
                assert(dec_str(n)[i] == dec_str(n / 10)[i]);
            } else {
                assert(dec_str(n)[i] == digit_char((n % 10) as int));
            }
        }
    }
}

/// Padded decimal writings hold digits only.
pub proof fn lemma_pad2_str_digits(n: nat)
    ensures
        forall|i: int| 0 <= i < pad2_str(n).len() ==> is_digit_char(#[trigger] pad2_str(n)[i]),
{
    lemma_dec_str_digits(n);
}

/// Clock strings hold digits and colons only.
pub proof fn lemma_duration_str_chars(n: nat)
    ensures
        forall|i: int|
            0 <= i < duration_str(n).len() ==> (is_digit_char(#[trigger] duration_str(n)[i])
                || duration_str(n)[i] == ':'),
{
    lemma_pad2_str_digits(n / 3600);
    lemma_pad2_str_digits((n % 3600) / 60);
    lemma_pad2_str_digits(n % 60);
}

/// Whether one field is free of separators.
fn field_ok(s: &str) -> (r: bool)
    ensures
        r == csv_field_ok(s@),
{
    let n = s.unicode_len();
    let mut i: usize = 0;
    while i < n
        invariant
            i <= n == s@.len(),
            forall|q: int| 0 <= q < i ==> s@[q] != ',' && s@[q] != '\n',
        decreases n - i,
    {
        let c = s.get_char(i);
        if c == ',' || c == '\n' {
            return false;
        }
        i = i + 1;
    }
    true
}

/// Whether every row of a history can be exported.
fn check_rows(history: &Vec<History>) -> (r: bool)
    ensures
        r == rows_wf(history@),
{
    let mut i: usize = 0;
    while i < history.len()
        invariant
            i <= history@.len(),
            forall|q: int| 0 <= q < i ==> history_wf(#[trigger] history@[q]),
        decreases history@.len() - i,
    {
        let h = &history[i];
        if h.total_pauses < 0 {
            return false;
        }
        if !field_ok(h.record_date.as_str()) {
            return false;
        }
        if !field_ok(h.start_time.as_str()) {
            return false;
        }
        if !field_ok(h.end_time.as_str()) {
            return false;
        }
        i = i + 1;
    }
    true
}

/// Renders a history as the delimited export text: the header line, then one
/// line per row with the total duration as a clock string and the pause
/// count in decimal. A history with a negative pause count or a separator
/// inside a field cannot be exported and yields `None`.
#[verifier::rlimit(100)]
#[verifier::spinoff_prover]
pub fn history_csv(history: &Vec<History>) -> (r: Option<String>)
    ensures
        rows_wf(history@) ==> (r matches Some(s) && s@ == csv_text(history@)),
        !rows_wf(history@) ==> r is None,
{
    if !check_rows(history) {
        return None;
    }
    let mut text = String::from_str("Date,Start,End,Total,Pauses");
    text.append("\n");
    proof {
        reveal_strlit("\n");
        assert(history@.take(0) =~= Seq::<History>::empty());
        assert(text@ =~= header_str() + seq!['\n'] + rows_str(history@.take(0)));
    }
    let mut i: usize = 0;
    while i < history.len()
        invariant
            i <= history@.len(),
            rows_wf(history@),
            text@ == header_str() + seq!['\n'] + rows_str(history@.take(i as int)),
        decreases history@.len() - i,
    {
        let h = &history[i];
        text.append(h.record_date.as_str());
        text.append(",");
        text.append(h.start_time.as_str());
        text.append(",");
        text.append(h.end_time.as_str());
        text.append(",");
        text.append(format_duration(h.total_duration).as_str());
        text.append(",");
        text.append(u64_to_dec(h.total_pauses as u64).as_str());
        text.append("\n");
        proof {
            reveal_strlit(",");
            reveal_strlit("\n");
            lemma_rows_str_take_step(history@, i as int);
            assert(text@ =~= header_str() + seq!['\n'] + rows_str(
                history@.take(i as int + 1),
            ));
        }
        i = i + 1;
    }
    proof {
        reveal_strlit("\n");
        assert(history@.take(history@.len() as int) =~= history@);
        assert(text@ =~= csv_text(history@));
    }
    Some(text)
}

/// Extending the rendered prefix by one row appends exactly that row's line.
proof fn lemma_rows_str_take_step(hs: Seq<History>, i: int)
    requires
        0 <= i < hs.len(),
    ensures
        rows_str(hs.take(i + 1)) == rows_str(hs.take(i)) + row_str(hs[i]) + seq!['\n'],
    decreases i,
{
    if i == 0 {
        assert(hs.take(1)[0] == hs[0]);
        assert(hs.take(1).drop_first() =~= hs.take(0));
        assert(rows_str(hs.take(0)) =~= Seq::<char>::empty());
        assert(rows_str(hs.take(1)) =~= rows_str(hs.take(0)) + row_str(hs[0]) + seq!['\n']);
    } else {
        lemma_rows_str_take_step(hs.drop_first(), i - 1);
        assert(hs.take(i + 1)[0] == hs[0]);
        assert(hs.take(i + 1).drop_first() =~= hs.drop_first().take(i));
        assert(hs.take(i).drop_first() =~= hs.drop_first().take(i - 1));
        assert(hs.take(i)[0] == hs[0]);
        assert(hs.drop_first()[i - 1] == hs[i]);
        assert(rows_str(hs.take(i + 1)) =~= rows_str(hs.take(i)) + row_str(hs[i]) + seq!['\n']);
    }
}

/// Splits a character sequence at every occurrence of `sep`. The result
/// always holds at least one part; adjacent separators yield empty parts.
pub open spec fn split_on(s: Seq<char>, sep: char) -> Seq<Seq<char>>
    decreases s.len(),
{
    if s.len() == 0 {
        seq![Seq::<char>::empty()]
    } else if s[0] == sep {
        seq![Seq::<char>::empty()] + split_on(s.drop_first(), sep)
    } else {
        let rest = split_on(s.drop_first(), sep);
        seq![seq![s[0]] + rest[0]] + rest.drop_first()
    }
}

/// A sequence free of a separator character.
pub open spec fn sep_free(s: Seq<char>, sep: char) -> bool {
    forall|i: int| 0 <= i < s.len() ==> s[i] != sep
}

/// A split yields at least one part.
proof fn lemma_split_len(s: Seq<char>, sep: char)
    ensures
        split_on(s, sep).len() >= 1,
    decreases s.len(),
{
    if s.len() > 0 {
        lemma_split_len(s.drop_first(), sep);
    }
}

/// A separator-free sequence splits into itself alone.
proof fn lemma_split_no_sep(s: Seq<char>, sep: char)
    requires
        sep_free(s, sep),
    ensures
        split_on(s, sep) == seq![s],
    decreases s.len(),
{
    if s.len() == 0 {
        assert(split_on(s, sep) =~~= seq![s]);
    } else {
        assert(sep_free(s.drop_first(), sep));
        lemma_split_no_sep(s.drop_first(), sep);
        assert(seq![s[0]] + s.drop_first() =~= s);
        assert(split_on(s, sep) =~~= seq![s]);
    }
}

/// Splitting cuts at the first separator after a separator-free prefix.
proof fn lemma_split_concat(p: Seq<char>, t: Seq<char>, sep: char)
    requires
        sep_free(p, sep),
    ensures
        split_on(p + seq![sep] + t, sep) == seq![p] + split_on(t, sep),
    decreases p.len(),
{
    lemma_split_len(t, sep);
    if p.len() == 0 {
        let s = p + seq![sep] + t;
        assert(s =~= seq![sep] + t);
        assert(s[0] == sep);
        assert(s.drop_first() =~= t);
        assert(split_on(s, sep) =~~= seq![p] + split_on(t, sep));
    } else {
        assert(sep_free(p.drop_first(), sep));
        lemma_split_concat(p.drop_first(), t, sep);
        lemma_split_len(p.drop_first() + seq![sep] + t, sep);
        let s = p + seq![sep] + t;
        assert(s[0] == p[0] && p[0] != sep);
        assert(s.drop_first() =~= p.drop_first() + seq![sep] + t);
        assert(seq![p[0]] + (seq![p.drop_first()] + split_on(t, sep))[0] =~= p);
        assert(split_on(s, sep) =~~= seq![p] + split_on(t, sep));
    }
}

/// A concatenation of separator-free parts is separator-free.
proof fn lemma_sep_free_concat(a: Seq<char>, b: Seq<char>, sep: char)
    requires
        sep_free(a, sep),
        sep_free(b, sep),
    ensures
        sep_free(a + b, sep),
{
    assert forall|i: int| 0 <= i < (a + b).len() implies (a + b)[i] != sep by {
        if i < a.len() {
            assert((a + b)[i] == a[i]);
        } else {
            assert((a + b)[i] == b[i - a.len()]);
        }
    }
}

/// The numeric value of a digit string, most significant digit first.
pub open spec fn dec_val(s: Seq<char>) -> int
    decreases s.len(),
{
    if s.len() == 0 {
        0
    } else {
        dec_val(s.drop_last()) * 10 + digit_val(s.last())
    }
}

/// Whether every character is a decimal digit.
pub open spec fn all_digits(s: Seq<char>) -> bool {
    forall|i: int| 0 <= i < s.len() ==> is_digit_char(#[trigger] s[i])
}

/// A parsed decimal field: a non-empty digit string's value.
pub open spec fn dec_parse(s: Seq<char>) -> Option<int> {
    if s.len() >= 1 && all_digits(s) {
        Some(dec_val(s))
    } else {
        None
    }
}

/// A parsed clock field: three colon-separated decimal parts, the minute and
/// second parts below sixty.
pub open spec fn hms_parse(s: Seq<char>) -> Option<int> {
    let ps = split_on(s, ':');
    if ps.len() == 3 {
        match (dec_parse(ps[0]), dec_parse(ps[1]), dec_parse(ps[2])) {
            (Some(h), Some(m), Some(sc)) => if m < 60 && sc < 60 {
                Some(h * 3600 + m * 60 + sc)
            } else {
                None
            },
            _ => None,
        }
    } else {
        None
    }
}

/// The five facts one exported row carries.
pub open spec fn row_tuple(h: History) -> (Seq<char>, Seq<char>, Seq<char>, u64, i32) {
    (h.record_date@, h.start_time@, h.end_time@, h.total_duration, h.total_pauses)
}

/// A parsed export row: five comma-separated fields, the fourth a clock
/// string that fits the duration field, the fifth a decimal that fits the
/// pause field.
pub open spec fn row_parse(line: Seq<char>) -> Option<(Seq<char>, Seq<char>, Seq<char>, u64, i32)> {
    let fs = split_on(line, ',');
    if fs.len() == 5 {
        match (hms_parse(fs[3]), dec_parse(fs[4])) {
            (Some(total), Some(pauses)) => if total <= u64::MAX && pauses <= i32::MAX {
                Some((fs[0], fs[1], fs[2], total as u64, pauses as i32))
            } else {
                None
            },
            _ => None,
        }
    } else {
        None
    }
}

/// The parsed rows of a sequence of lines; `None` as soon as one line fails.
pub open spec fn rows_parse(lines: Seq<Seq<char>>) -> Option<
    Seq<(Seq<char>, Seq<char>, Seq<char>, u64, i32)>,
>
    decreases lines.len(),
{
    if lines.len() == 0 {
        Some(Seq::empty())
    } else {
        match (rows_parse(lines.drop_last()), row_parse(lines.last())) {
            (Some(rest), Some(r)) => Some(rest.push(r)),
            _ => None,
        }
    }
}

/// Parses a whole exported file: a header line, any number of row lines,
/// each line ended by a newline.
pub open spec fn csv_parse(s: Seq<char>) -> Option<
    Seq<(Seq<char>, Seq<char>, Seq<char>, u64, i32)>,
> {
    let ls = split_on(s, '\n');
    if ls.len() >= 2 && ls[0] == header_str() && ls[ls.len() - 1] == Seq::<char>::empty() {
        rows_parse(ls.subrange(1, ls.len() - 1))
    } else {
        None
    }
}

/// Each exported row's strings, in order.
pub open spec fn row_strs(hs: Seq<History>) -> Seq<Seq<char>> {
    hs.map_values(|h: History| row_str(h))
}

/// Each row's five facts, in order.
pub open spec fn row_tuples(hs: Seq<History>) -> Seq<(Seq<char>, Seq<char>, Seq<char>, u64, i32)> {
    hs.map_values(|h: History| row_tuple(h))
}

/// Reading a digit character back gives the digit.
proof fn lemma_digit_roundtrip(d: int)
    requires
        0 <= d <= 9,
    ensures
        digit_val(digit_char(d)) == d,
        is_digit_char(digit_char(d)),
{
}

/// Parsing a decimal writing returns the number.
proof fn lemma_dec_val_of_str(n: nat)
    ensures
        dec_val(dec_str(n)) == n,
        dec_str(n).len() >= 1,
    decreases n,
{
    if n < 10 {
        lemma_digit_roundtrip(n as int);
        let s = dec_str(n);
        assert(s == seq![digit_char(n as int)]);
        assert(s.last() == digit_char(n as int));
        assert(s.drop_last() =~= Seq::<char>::empty());
        assert(dec_val(s) == dec_val(s.drop_last()) * 10 + digit_val(s.last()));
        assert(dec_val(s.drop_last()) == 0);
    } else {
        lemma_dec_val_of_str(n / 10);
        lemma_digit_roundtrip((n % 10) as int);
        let s = dec_str(n);
        assert(s == dec_str(n / 10).push(digit_char((n % 10) as int)));
        assert(s.last() == digit_char((n % 10) as int));
        assert(s.drop_last() =~= dec_str(n / 10));
        assert(dec_val(s) == dec_val(s.drop_last()) * 10 + digit_val(s.last()));
        assert(dec_val(s) == (n / 10) * 10 + n % 10);
    }
}

/// A decimal writing parses back to its number.
proof fn lemma_dec_parse_of_str(n: nat)
    ensures
        dec_parse(dec_str(n)) == Some(n as int),
{
    lemma_dec_val_of_str(n);
    lemma_dec_str_digits(n);
}

/// A leading zero leaves a digit string's value unchanged.
proof fn lemma_dec_val_prepend_zero(s: Seq<char>)
    ensures
        dec_val(seq!['0'] + s) == dec_val(s),
    decreases s.len(),
{
    let z = seq!['0'] + s;
    if s.len() == 0 {
        assert(z =~= seq!['0']);
        assert(z.last() == '0');
        assert(z.drop_last() =~= Seq::<char>::empty());
        assert(dec_val(z) == dec_val(z.drop_last()) * 10 + digit_val(z.last()));
        assert(digit_val('0') == 0);
    } else {
        lemma_dec_val_prepend_zero(s.drop_last());
        assert(z.drop_last() =~= seq!['0'] + s.drop_last());
        assert(z.last() == s.last());
        assert(dec_val(z) == dec_val(z.drop_last()) * 10 + digit_val(z.last()));
    }
}

/// A padded decimal writing parses back to its number.
proof fn lemma_pad2_parse(n: nat)
    ensures
        dec_parse(pad2_str(n)) == Some(n as int),
{
    lemma_pad2_str_digits(n);
    if n < 10 {
        lemma_dec_val_of_str(n);
        lemma_dec_val_prepend_zero(dec_str(n));
        assert(pad2_str(n) =~= seq!['0'] + dec_str(n));
    } else {
        lemma_dec_parse_of_str(n);
    }
}

/// Digit strings hold no separator.
proof fn lemma_digits_sep_free(s: Seq<char>, sep: char)
    requires
        all_digits(s),
        !is_digit_char(sep),
    ensures
        sep_free(s, sep),
{
}

/// A clock writing parses back to its second count.
proof fn lemma_hms_parse_of_str(n: nat)
    ensures
        hms_parse(duration_str(n)) == Some(n as int),
{
    let h = n / 3600;
    let m = (n % 3600) / 60;
    let sc = n % 60;
    lemma_pad2_str_digits(h);
    lemma_pad2_str_digits(m);
    lemma_pad2_str_digits(sc);
    lemma_digits_sep_free(pad2_str(h), ':');
    lemma_digits_sep_free(pad2_str(m), ':');
    lemma_digits_sep_free(pad2_str(sc), ':');
    let tail = pad2_str(m) + seq![':'] + pad2_str(sc);
    assert(duration_str(n) =~= pad2_str(h) + seq![':'] + tail);
    lemma_split_concat(pad2_str(h), tail, ':');
    lemma_split_concat(pad2_str(m), pad2_str(sc), ':');
    lemma_split_no_sep(pad2_str(sc), ':');
    assert(split_on(duration_str(n), ':') =~~= seq![pad2_str(h), pad2_str(m), pad2_str(sc)]);
    lemma_pad2_parse(h);
    lemma_pad2_parse(m);
    lemma_pad2_parse(sc);
    vstd::arithmetic::div_mod::lemma_mod_mod(n as int, 60, 60);
    assert(h * 3600 + m * 60 + sc == n);
}

/// An exported row parses back to its five facts.
proof fn lemma_row_round_trip(h: History)
    requires
        history_wf(h),
    ensures
        row_parse(row_str(h)) == Some(row_tuple(h)),
{
    let dstr = duration_str(h.total_duration as nat);
    let pstr = dec_str(h.total_pauses as nat);
    lemma_duration_str_chars(h.total_duration as nat);
    lemma_dec_str_digits(h.total_pauses as nat);
    assert(sep_free(dstr, ','));
    assert(sep_free(pstr, ','));
    let t3 = dstr + seq![','] + pstr;
    let t2 = h.end_time@ + seq![','] + t3;
    let t1 = h.start_time@ + seq![','] + t2;
    assert(row_str(h) =~= h.record_date@ + seq![','] + t1);
    lemma_split_concat(h.record_date@, t1, ',');
    lemma_split_concat(h.start_time@, t2, ',');
    lemma_split_concat(h.end_time@, t3, ',');
    lemma_split_concat(dstr, pstr, ',');
    lemma_split_no_sep(pstr, ',');
    assert(split_on(row_str(h), ',') =~~= seq![
        h.record_date@,
        h.start_time@,
        h.end_time@,
        dstr,
        pstr,
    ]);
    lemma_hms_parse_of_str(h.total_duration as nat);
    lemma_dec_parse_of_str(h.total_pauses as nat);
}

/// Exported rows parse back to their facts, row by row.
proof fn lemma_rows_parse_strs(hs: Seq<History>)
    requires
        rows_wf(hs),
    ensures
        rows_parse(row_strs(hs)) == Some(row_tuples(hs)),
    decreases hs.len(),
{
    if hs.len() == 0 {
        assert(row_strs(hs) =~~= Seq::<Seq<char>>::empty());
        assert(rows_parse(row_strs(hs)) == Some(Seq::<(
            Seq<char>,
            Seq<char>,
            Seq<char>,
            u64,
            i32,
        )>::empty()));
        assert(row_tuples(hs) =~~= Seq::<(Seq<char>, Seq<char>, Seq<char>, u64, i32)>::empty());
    } else {
        assert(rows_wf(hs.drop_last()));
        lemma_rows_parse_strs(hs.drop_last());
        lemma_row_round_trip(hs.last());
        assert(row_strs(hs).drop_last() =~~= row_strs(hs.drop_last()));
        assert(row_strs(hs).last() == row_str(hs.last()));
        assert(row_tuples(hs) =~~= row_tuples(hs.drop_last()).push(row_tuple(hs.last())));
    }
}

/// One well-formed row's line holds no newline.
proof fn lemma_row_nl_free(h: History)
    requires
        history_wf(h),
    ensures
        sep_free(row_str(h), '\n'),
{
    lemma_duration_str_chars(h.total_duration as nat);
    lemma_dec_str_digits(h.total_pauses as nat);
    let dstr = duration_str(h.total_duration as nat);
    let pstr = dec_str(h.total_pauses as nat);
    lemma_sep_free_concat(h.record_date@, seq![','], '\n');
    lemma_sep_free_concat(h.record_date@ + seq![','], h.start_time@, '\n');
    lemma_sep_free_concat(h.record_date@ + seq![','] + h.start_time@, seq![','], '\n');
    lemma_sep_free_concat(
        h.record_date@ + seq![','] + h.start_time@ + seq![','],
        h.end_time@,
        '\n',
    );
    lemma_sep_free_concat(
        h.record_date@ + seq![','] + h.start_time@ + seq![','] + h.end_time@,
        seq![','],
        '\n',
    );
    lemma_sep_free_concat(
        h.record_date@ + seq![','] + h.start_time@ + seq![','] + h.end_time@ + seq![','],
        dstr,
        '\n',
    );
    lemma_sep_free_concat(
        h.record_date@ + seq![','] + h.start_time@ + seq![','] + h.end_time@ + seq![','] + dstr,
        seq![','],
        '\n',
    );
    lemma_sep_free_concat(
        h.record_date@ + seq![','] + h.start_time@ + seq![','] + h.end_time@ + seq![','] + dstr
            + seq![','],
        pstr,
        '\n',
    );
}

/// The row lines of a well-formed history split back into the rows.
proof fn lemma_rows_split(hs: Seq<History>)
    requires
        rows_wf(hs),
    ensures
        split_on(rows_str(hs), '\n') == row_strs(hs) + seq![Seq::<char>::empty()],
    decreases hs.len(),
{
    if hs.len() == 0 {
        assert(split_on(rows_str(hs), '\n') =~~= row_strs(hs) + seq![Seq::<char>::empty()]);
    } else {
        assert(rows_wf(hs.drop_first())) by {
            assert(forall|i: int|
                0 <= i < hs.drop_first().len() ==> #[trigger] hs.drop_first()[i] == hs[i + 1]);
        }
        lemma_rows_split(hs.drop_first());
        lemma_row_nl_free(hs[0]);
        lemma_split_concat(row_str(hs[0]), rows_str(hs.drop_first()), '\n');
        assert(row_strs(hs) =~~= seq![row_str(hs[0])] + row_strs(hs.drop_first()));
        assert(split_on(rows_str(hs), '\n') =~~= row_strs(hs) + seq![Seq::<char>::empty()]);
    }
}

/// The header line holds no newline.
proof fn lemma_header_nl_free()
    ensures
        sep_free(header_str(), '\n'),
{
    reveal_strlit("Date,Start,End,Total,Pauses");
}

/// Exporting a well-formed history and re-parsing the exported text
/// reproduces exactly the rows' facts: each date, start time, end time,
/// total duration and pause count comes back unchanged.
pub proof fn lemma_export_round_trip(hs: Seq<History>)
    requires
        rows_wf(hs),
    ensures
        csv_parse(csv_text(hs)) == Some(row_tuples(hs)),
{
    lemma_header_nl_free();
    lemma_rows_split(hs);
    lemma_split_concat(header_str(), rows_str(hs), '\n');
    let ls = split_on(csv_text(hs), '\n');
    assert(csv_text(hs) =~= header_str() + seq!['\n'] + rows_str(hs));
    assert(ls =~~= seq![header_str()] + row_strs(hs) + seq![Seq::<char>::empty()]);
    assert(ls[0] == header_str());
    assert(ls[ls.len() - 1] == Seq::<char>::empty());
    assert(ls.subrange(1, ls.len() - 1) =~~= row_strs(hs));
    lemma_rows_parse_strs(hs);
}

/// The view of each string in a sequence.
pub open spec fn string_views(v: Seq<String>) -> Seq<Seq<char>> {
    v.map_values(|x: String| x@)
}

/// Splits a string at every occurrence of `sep`.
fn split_str(s: &str, sep: char) -> (parts: Vec<String>)
    ensures
        string_views(parts@) == split_on(s@, sep),
{
    let n = s.unicode_len();
    let mut parts: Vec<String> = Vec::new();
    let mut start: usize = 0;
    let mut i: usize = 0;
    proof {
        lemma_split_len(s@, sep);
        assert(s@.subrange(0, n as int) =~= s@);
        assert(string_views(parts@) =~~= Seq::<Seq<char>>::empty());
        assert(string_views(parts@) + seq![
            s@.subrange(0, 0) + split_on(s@.subrange(0, n as int), sep)[0],
        ] + split_on(s@.subrange(0, n as int), sep).drop_first() =~~= split_on(s@, sep));
    }
    while i < n
        invariant
            start <= i <= n == s@.len(),
            split_on(s@, sep) == string_views(parts@) + seq![
                s@.subrange(start as int, i as int) + split_on(
                    s@.subrange(i as int, n as int),
                    sep,
                )[0],
            ] + split_on(s@.subrange(i as int, n as int), sep).drop_first(),
        decreases n - i,
    {
        let ghost rest = s@.subrange(i as int, n as int);
        let ghost rest1 = s@.subrange(i as int + 1, n as int);
        proof {
            lemma_split_len(rest1, sep);
            assert(rest[0] == s@[i as int]);
            assert(rest.drop_first() =~= rest1);
        }
        let c = s.get_char(i);
        if c == sep {
            let piece = s.substring_char(start, i);
            parts.push(String::from_str(piece));
            proof {
                assert(split_on(rest, sep) == seq![Seq::<char>::empty()] + split_on(rest1, sep));
                assert(split_on(rest, sep)[0] =~= Seq::<char>::empty());
                assert(split_on(rest, sep).drop_first() =~~= split_on(rest1, sep));
                assert(s@.subrange(start as int, i as int) + Seq::<char>::empty() =~= s@.subrange(
                    start as int,
                    i as int,
                ));
                assert(string_views(parts@) =~~= string_views(parts@.drop_last()) + seq![
                    s@.subrange(start as int, i as int),
                ]);
                assert(s@.subrange(i as int + 1, i as int + 1) =~= Seq::<char>::empty());
                assert(split_on(s@, sep) =~~= string_views(parts@) + seq![
                    s@.subrange(i as int + 1, i as int + 1) + split_on(rest1, sep)[0],
                ] + split_on(rest1, sep).drop_first());
            }
            start = i + 1;
        } else {
            proof {
                assert(split_on(rest, sep) == seq![seq![rest[0]] + split_on(rest1, sep)[0]]
                    + split_on(rest1, sep).drop_first());
                assert(split_on(rest, sep)[0] =~= seq![s@[i as int]] + split_on(rest1, sep)[0]);
                assert(split_on(rest, sep).drop_first() =~~= split_on(rest1, sep).drop_first());
                assert(s@.subrange(start as int, i as int + 1) =~= s@.subrange(
                    start as int,
                    i as int,
                ) + seq![s@[i as int]]);
                assert(s@.subrange(start as int, i as int + 1) + split_on(rest1, sep)[0]
                    =~= s@.subrange(start as int, i as int) + split_on(rest, sep)[0]);
            }
        }
        i = i + 1;
    }
    let piece = s.substring_char(start, n);
    parts.push(String::from_str(piece));
    proof {
        assert(s@.subrange(n as int, n as int) =~= Seq::<char>::empty());
        assert(split_on(s@.subrange(n as int, n as int), sep) == seq![Seq::<char>::empty()]);
        assert(string_views(parts@) =~~= string_views(parts@.drop_last()) + seq![
            s@.subrange(start as int, n as int),
        ]);
        assert(string_views(parts@) =~~= split_on(s@, sep));
    }
    parts
}

/// Digit strings have non-negative values.
proof fn lemma_dec_val_nonneg(s: Seq<char>)
    requires
        all_digits(s),
    ensures
        dec_val(s) >= 0,
    decreases s.len(),
{
    if s.len() > 0 {
        assert(all_digits(s.drop_last()));
        lemma_dec_val_nonneg(s.drop_last());
        assert(is_digit_char(s.last()));
        assert(digit_val(s.last()) >= 0);
    }
}

/// A digit string's value never falls below a prefix's value.
proof fn lemma_dec_val_prefix(s: Seq<char>, j: int)
    requires
        all_digits(s),
        0 <= j <= s.len(),
    ensures
        dec_val(s) >= dec_val(s.take(j)),
    decreases s.len() - j,
{
    assert(all_digits(s.take(j)));
    if j == s.len() {
        assert(s.take(j) =~= s);
    } else {
        lemma_dec_val_prefix(s, j + 1);
        assert(s.take(j + 1).drop_last() =~= s.take(j));
        assert(s.take(j + 1).last() == s[j]);
        lemma_dec_val_nonneg(s.take(j));
        assert(is_digit_char(s[j]));
        assert(dec_val(s.take(j + 1)) == dec_val(s.take(j)) * 10 + digit_val(s[j]));
    }
}

/// Reads one non-empty all-digit field as a number; a field that is empty,
/// has a non-digit, or exceeds the 64-bit range reads as nothing.
fn parse_dec_field(s: &str) -> (r: Option<u64>)
    ensures
        match dec_parse(s@) {
            Some(v) => if v <= u64::MAX {
                r == Some(v as u64)
            } else {
                r is None
            },
            None => r is None,
        },
{
    let n = s.unicode_len();
    if n == 0 {
        return None;
    }
    let mut acc: u64 = 0;
    let mut i: usize = 0;
    while i < n
        invariant
            i <= n == s@.len(),
            n >= 1,
            all_digits(s@.take(i as int)),
            acc == dec_val(s@.take(i as int)),
        decreases n - i,
    {
        let c = s.get_char(i);
        let v = c as u32;
        if v < 48 || v > 57 {
            proof {
                assert(!is_digit_char(s@[i as int]));
                assert(!all_digits(s@));
            }
            return None;
        }
        let d = (v - 48) as u64;
        proof {
            assert(s@.take(i as int + 1).drop_last() =~= s@.take(i as int));
            assert(s@.take(i as int + 1).last() == s@[i as int]);
            assert(is_digit_char(s@[i as int]));
            assert(digit_val(s@[i as int]) == d);
            assert(all_digits(s@.take(i as int + 1)));
        }
        if acc > (u64::MAX - d) / 10 {
            proof {
                let f = (u64::MAX - d) / 10;
                assert(u64::MAX - d == 10 * (f as int) + ((u64::MAX - d) as int % 10));
                assert(10 * (acc as int) + d > u64::MAX);
                assert(dec_val(s@.take(i as int + 1)) > u64::MAX);
                if all_digits(s@) {
                    lemma_dec_val_prefix(s@, i as int + 1);
                }
            }
            return None;
        }
        acc = acc * 10 + d;
        i = i + 1;
    }
    proof {
        assert(s@.take(n as int) =~= s@);
    }
    Some(acc)
}

/// Reads one clock field (`H:MM:SS`, hours unbounded) as a second count; a
/// malformed field or one beyond the 64-bit range reads as nothing.
#[verifier::rlimit(100)]
#[verifier::spinoff_prover]
fn parse_hms_field(s: &str) -> (r: Option<u64>)
    ensures
        match hms_parse(s@) {
            Some(v) => if v <= u64::MAX {
                r == Some(v as u64)
            } else {
                r is None
            },
            None => r is None,
        },
{
    let parts = split_str(s, ':');
    proof {
        assert(split_on(s@, ':').len() == parts@.len());
    }
    if parts.len() != 3 {
        return None;
    }
    proof {
        assert(parts@[0]@ == split_on(s@, ':')[0]);
        assert(parts@[1]@ == split_on(s@, ':')[1]);
        assert(parts@[2]@ == split_on(s@, ':')[2]);
    }
    let h = parse_dec_field(parts[0].as_str());
    let m = parse_dec_field(parts[1].as_str());
    let sc = parse_dec_field(parts[2].as_str());
    match (h, m, sc) {
        (Some(h), Some(m), Some(sc)) => {
            if m < 60 && sc < 60 {
                proof {
                    let ps = split_on(s@, ':');
                    assert(dec_parse(ps[0]) is Some && dec_parse(ps[1]) is Some && dec_parse(
                        ps[2],
                    ) is Some);
                    lemma_dec_val_nonneg(ps[0]);
                    lemma_dec_val_nonneg(ps[1]);
                    lemma_dec_val_nonneg(ps[2]);
                    assert(dec_val(ps[0]) == h);
                    assert(dec_val(ps[1]) == m);
                    assert(dec_val(ps[2]) == sc);
                    assert(hms_parse(s@) == Some(h + m * 60 + sc + h * 3599));
                    assert(h + m * 60 + sc + h * 3599 == h * 3600 + m * 60 + sc) by (nonlinear_arith);
                }
                let ghost v = hms_parse(s@).unwrap();
                proof {
                    assert(v == h * 3600 + m * 60 + sc);
                }
                match h.checked_mul(3600) {
                    Some(t) => {
                        proof {
                            assert(t == h * 3600);
                        }
                        let r2 = t.checked_add(m * 60 + sc);
                        proof {
                            if r2 is None {
                                assert(v > u64::MAX);
                            } else {
                                assert(r2 == Some(v as u64));
                            }
                        }
                        r2
                    },
                    None => {
                        proof {
                            assert(h * 3600 > u64::MAX);
                            assert(v > u64::MAX);
                        }
                        None
                    },
                }
            } else {
                proof {
                    let ps = split_on(s@, ':');
                    if hms_parse(s@) is Some {
                        assert(dec_parse(ps[1]) is Some && dec_parse(ps[2]) is Some);
                        lemma_dec_val_nonneg(ps[1]);
                        lemma_dec_val_nonneg(ps[2]);
                        assert(dec_val(ps[1]) == m && dec_val(ps[2]) == sc);
                        assert(false);
                    }
                }
                None
            }
        },
        _ => {
            proof {
                match hms_parse(s@) {
                    Some(v) => {
                        let ps = split_on(s@, ':');
                        assert(dec_parse(ps[0]) is Some && dec_parse(ps[1]) is Some && dec_parse(
                            ps[2],
                        ) is Some);
                        lemma_dec_val_nonneg(ps[0]);
                        lemma_dec_val_nonneg(ps[1]);
                        lemma_dec_val_nonneg(ps[2]);
                        let hv = dec_val(ps[0]);
                        assert(hv * 3600 >= hv) by (nonlinear_arith)
                            requires
                                hv >= 0,
                        ;
                        if hv <= u64::MAX {
                            assert(h == Some(hv as u64));
                            assert(dec_val(ps[1]) < 60 && dec_val(ps[2]) < 60);
                            assert(m is Some && sc is Some);
                            assert(false);
                        } else {
                            assert(v > u64::MAX);
                        }
                    },
                    None => {},
                }
            }
            None
        },
    }
}

/// A parsed clock field is never negative.
proof fn lemma_hms_parse_nonneg(s: Seq<char>)
    ensures
        hms_parse(s) matches Some(v) ==> v >= 0,
{
    match hms_parse(s) {
        Some(v) => {
            let ps = split_on(s, ':');
            assert(dec_parse(ps[0]) is Some && dec_parse(ps[1]) is Some && dec_parse(
                ps[2],
            ) is Some);
            lemma_dec_val_nonneg(ps[0]);
            lemma_dec_val_nonneg(ps[1]);
            lemma_dec_val_nonneg(ps[2]);
        },
        None => {},
    }
}

/// Reads one exported row line back into a history row; a malformed line
/// reads as nothing.
fn parse_history_row(line: &str) -> (r: Option<History>)
    ensures
        match row_parse(line@) {
            Some(t) => r matches Some(h) && row_tuple(h) == t,
            None => r is None,
        },
{
    let fields = split_str(line, ',');
    proof {
        assert(split_on(line@, ',').len() == fields@.len());
    }
    if fields.len() != 5 {
        return None;
    }
    proof {
        assert(fields@[0]@ == split_on(line@, ',')[0]);
        assert(fields@[1]@ == split_on(line@, ',')[1]);
        assert(fields@[2]@ == split_on(line@, ',')[2]);
        assert(fields@[3]@ == split_on(line@, ',')[3]);
        assert(fields@[4]@ == split_on(line@, ',')[4]);
    }
    let total = match parse_hms_field(fields[3].as_str()) {
        Some(t) => t,
        None => {
            return None;
        },
    };
    proof {
        lemma_hms_parse_nonneg(split_on(line@, ',')[3]);
    }
    let pauses = match parse_dec_field(fields[4].as_str()) {
        Some(p) => p,
        None => {
            return None;
        },
    };
    proof {
        assert(dec_parse(split_on(line@, ',')[4]) is Some);
        lemma_dec_val_nonneg(split_on(line@, ',')[4]);
    }
    if pauses > (i32::MAX as u64) {
        return None;
    }
    Some(
        History {
            total_pauses: pauses as i32,
            total_duration: total,
            record_date: fields[0].clone(),
            start_time: fields[1].clone(),
            end_time: fields[2].clone(),
        },
    )
}

/// A failed line keeps the whole parse failed.
proof fn lemma_rows_parse_none_persists(lines: Seq<Seq<char>>, j: int)
    requires
        0 <= j <= lines.len(),
        rows_parse(lines.take(j)) is None,
    ensures
        rows_parse(lines) is None,
    decreases lines.len() - j,
{
    if j == lines.len() {
        assert(lines.take(j) =~~= lines);
    } else {
        assert(lines.take(j + 1).drop_last() =~~= lines.take(j));
        lemma_rows_parse_none_persists(lines, j + 1);
    }
}

/// Reads a whole exported file back: the header line, then one history row
/// per line. A file that the export format does not describe reads as
/// nothing; otherwise every row's five facts come back.
pub fn parse_history_csv(text: &str) -> (r: Option<Vec<History>>)
    ensures
        r is Some <==> csv_parse(text@) is Some,
        r matches Some(v) ==> (csv_parse(text@) matches Some(rows) && v@.len() == rows.len()
            && (forall|i: int| 0 <= i < rows.len() ==> row_tuple(#[trigger] v@[i]) == rows[i])),
{
    let ghost ls = split_on(text@, '\n');
    let lines = split_str(text, '\n');
    proof {
        assert(ls.len() == lines@.len());
    }
    if lines.len() < 2 {
        return None;
    }
    let hdr = String::from_str("Date,Start,End,Total,Pauses");
    proof {
        assert(lines@[0]@ == ls[0]);
        assert(hdr@ == header_str());
    }
    if !(lines[0] == hdr) {
        return None;
    }
    proof {
        assert(lines@[lines@.len() - 1]@ == ls[ls.len() - 1]);
    }
    if !lines[lines.len() - 1].as_str().is_empty() {
        proof {
            assert(ls[ls.len() - 1].len() != 0);
            assert(ls[ls.len() - 1] != Seq::<char>::empty());
        }
        return None;
    }
    proof {
        assert(ls[ls.len() - 1] =~= Seq::<char>::empty());
    }
    let ghost mids = ls.subrange(1, ls.len() - 1);
    let end = lines.len() - 1;
    let mut out: Vec<History> = Vec::new();
    let mut i: usize = 1;
    proof {
        assert(mids.take(0) =~~= Seq::<Seq<char>>::empty());
    }
    while i < end
        invariant
            1 <= i <= end,
            end == lines@.len() - 1,
            string_views(lines@) == ls,
            ls == split_on(text@, '\n'),
            mids == ls.subrange(1, ls.len() - 1),
            mids.len() == end - 1,
            out@.len() == i - 1,
            rows_parse(mids.take(i as int - 1)) matches Some(ts) && ts.len() == out@.len() && (
            forall|k: int| 0 <= k < ts.len() ==> row_tuple(#[trigger] out@[k]) == ts[k]),
        decreases end - i,
    {
        proof {
            assert(lines@[i as int]@ == ls[i as int]);
            assert(mids[i as int - 1] == ls[i as int]);
            assert(mids.take(i as int).drop_last() =~~= mids.take(i as int - 1));
            assert(mids.take(i as int).last() == mids[i as int - 1]);
        }
        match parse_history_row(lines[i].as_str()) {
            Some(h) => {
                out.push(h);
                proof {
                    let ts = rows_parse(mids.take(i as int - 1)).unwrap();
                    assert(rows_parse(mids.take(i as int)) == Some(
                        ts.push(row_tuple(out@.last())),
                    ));
                }
            },
            None => {
                proof {
                    assert(rows_parse(mids.take(i as int)) is None);
                    lemma_rows_parse_none_persists(mids, i as int);
                }
                return None;
            },
        }
        i = i + 1;
    }
    proof {
        assert(mids.take(end as int - 1) =~~= mids);
    }
    Some(out)
}

/// Every row of a faithful aggregate can be exported: its pause count is
/// non-negative and its fields are free of separators.
pub proof fn lemma_aggregate_rows_wf(out: Seq<History>, rs: Seq<Record>)
    requires
        aggregatable(rs),
        is_aggregate_of(out, rs),
    ensures
        rows_wf(out),
{
    assert forall|i: int| 0 <= i < out.len() implies history_wf(#[trigger] out[i]) by {
        let g = group_of(rs, out[i].record_date@);
        assert(row_matches(out[i], g));
        lemma_group_member_valid(rs, out[i].record_date@, 0);
        let s = g[0].created_at@;
        assert(ts_valid(s));
        assert forall|k: int| 0 <= k < date_of(s).len() implies date_of(s)[k] != ','
            && date_of(s)[k] != '\n' by {
            assert(date_of(s)[k] == s[k]);
        }
        let p = choose|p: int|
            is_earliest(g, p) && out[i].start_time@ == duration_str(
                secs_of(g[p].created_at@) as nat,
            );
        lemma_duration_str_chars(secs_of(g[p].created_at@) as nat);
        let q = choose|q: int|
            is_latest(g, q) && out[i].end_time@ == duration_str(
                ((secs_of(g[q].created_at@) + g[q].duration) % 86400) as nat,
            );
        lemma_duration_str_chars(((secs_of(g[q].created_at@) + g[q].duration) % 86400) as nat);
    }
}

/// Aggregating a record set, exporting the history and re-parsing the
/// exported text reproduces exactly the aggregate's rows.
pub proof fn lemma_aggregate_export_round_trip(out: Seq<History>, rs: Seq<Record>)
    requires
        aggregatable(rs),
        is_aggregate_of(out, rs),
    ensures
        csv_parse(csv_text(out)) == Some(row_tuples(out)),
{
    lemma_aggregate_rows_wf(out, rs);
    lemma_export_round_trip(out);
}

} // verus!
