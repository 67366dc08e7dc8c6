use vstd::prelude::*;
use vstd::string::*;
use vstd::arithmetic::div_mod::lemma_add_mod_noop;
use crate::helpers::{duration_str, format_duration};
use crate::models::{History, Record};
use crate::timestamp::{
    date_key, date_of, date_str_of_key, format_date_key, lemma_date_key_injective,
    lemma_date_of_key, lemma_tod_str, parse_timestamp, secs_of, tod_of, ts_valid,
};

verus! {

/// Every record carries a well-formed `created_at` timestamp.
pub open spec fn all_valid(rs: Seq<Record>) -> bool {
    forall|i: int| 0 <= i < rs.len() ==> ts_valid(#[trigger] rs[i].created_at@)
}

/// Whether a record belongs to the group of calendar date `d`.
pub open spec fn in_group(r: Record, d: Seq<char>) -> bool {
    date_of(r.created_at@) == d
}

/// The subsequence of `rs` whose records fall on calendar date `d`, in order.
pub open spec fn group_of(rs: Seq<Record>, d: Seq<char>) -> Seq<Record>
    decreases rs.len(),
{
    if rs.len() == 0 {
        Seq::empty()
    } else if in_group(rs.last(), d) {
        group_of(rs.drop_last(), d).push(rs.last())
    } else {
        group_of(rs.drop_last(), d)
    }
}

/// The exact sum of the durations of a group of records.
pub open spec fn sum_durations(g: Seq<Record>) -> int
    decreases g.len(),
{
    if g.len() == 0 {
        0
    } else {
        sum_durations(g.drop_last()) + g.last().duration
    }
}

/// Every date group's total duration is representable in 64 bits.
pub open spec fn group_sums_fit(rs: Seq<Record>) -> bool {
    forall|i: int|
        0 <= i < rs.len() ==> sum_durations(
            group_of(rs, date_of(#[trigger] rs[i].created_at@)),
        ) <= u64::MAX
}

/// A record set that can be aggregated without information loss: all
/// timestamps are well formed, every per-date total fits the duration field,
/// and the per-date counts fit the pause field.
pub open spec fn aggregatable(rs: Seq<Record>) -> bool {
    &&& all_valid(rs)
    &&& group_sums_fit(rs)
    &&& rs.len() <= i32::MAX
}

/// `g[i]` starts no later than any record of the group.
pub open spec fn is_earliest(g: Seq<Record>, i: int) -> bool {
    &&& 0 <= i < g.len()
    &&& forall|q: int|
        0 <= q < g.len() ==> secs_of(#[trigger] g[q].created_at@) >= secs_of(g[i].created_at@)
}

/// `g[i]` starts no earlier than any record of the group.
pub open spec fn is_latest(g: Seq<Record>, i: int) -> bool {
    &&& 0 <= i < g.len()
    &&& forall|q: int|
        0 <= q < g.len() ==> secs_of(#[trigger] g[q].created_at@) <= secs_of(g[i].created_at@)
}

/// What one history row says about its (non-empty) date group: the date is
/// the group's calendar date; pauses count the records minus one; the total
/// is the exact sum of durations; the start time is the time of day of the
/// earliest record; and the end time is the time of day at which the latest
/// record's session ended, wrapped past midnight.
pub open spec fn row_matches(h: History, g: Seq<Record>) -> bool {
    &&& g.len() >= 1
    &&& h.record_date@ == date_of(g[0].created_at@)
    &&& h.total_pauses == g.len() - 1
    &&& h.total_duration == sum_durations(g)
    &&& exists|i: int|
        is_earliest(g, i) && h.start_time@ == duration_str(secs_of(g[i].created_at@) as nat)
    &&& exists|j: int|
        is_latest(g, j) && h.end_time@ == duration_str(
            ((secs_of(g[j].created_at@) + g[j].duration) % 86400) as nat,
        )
}

/// A correct aggregation: one row per calendar date occurring in `rs`, no
/// date twice, each row matching its group. Row order is left open.
pub open spec fn is_aggregate_of(out: Seq<History>, rs: Seq<Record>) -> bool {
    &&& forall|x: int, y: int|
        0 <= x < y < out.len() ==> (#[trigger] out[x].record_date@) != (
        #[trigger] out[y].record_date@)
    &&& forall|x: int|
        0 <= x < out.len() ==> row_matches(#[trigger] out[x], group_of(rs, out[x].record_date@))
    &&& forall|k: int|
        0 <= k < rs.len() ==> exists|x: int|
            0 <= x < out.len() && (#[trigger] out[x].record_date@) == date_of(
                #[trigger] rs[k].created_at@,
            )
}

/// The full contract of aggregation: an exact aggregate when the record set
/// admits one, and the empty history otherwise (malformed or overflowing
/// record sets degrade to an empty history rather than to corrupt rows).
pub open spec fn aggregate_post(out: Seq<History>, rs: Seq<Record>) -> bool {
    if aggregatable(rs) {
        is_aggregate_of(out, rs)
    } else {
        out.len() == 0
    }
}

/// Every one of the first `n` records shares its date key with some leader.
spec fn keys_covered(keys: Seq<u64>, leaders: Seq<usize>, n: int) -> bool {
    forall|j: int|
        0 <= j < n ==> exists|l: int|
            0 <= l < leaders.len() && keys[#[trigger] leaders[l] as int] == #[trigger] keys[j]
}

/// Extending the scanned prefix by one record extends its group exactly when
/// the record falls on the group's date.
proof fn lemma_group_take_step(rs: Seq<Record>, d: Seq<char>, i: int)
    requires
        0 <= i < rs.len(),
    ensures
        in_group(rs[i], d) ==> group_of(rs.take(i + 1), d) == group_of(rs.take(i), d).push(rs[i]),
        !in_group(rs[i], d) ==> group_of(rs.take(i + 1), d) == group_of(rs.take(i), d),
{
    assert(rs.take(i + 1).drop_last() =~= rs.take(i));
    assert(rs.take(i + 1).last() == rs[i]);
}

/// Appending one record to a group adds its duration to the sum.
proof fn lemma_sum_push(g: Seq<Record>, r: Record)
    ensures
        sum_durations(g.push(r)) == sum_durations(g) + r.duration,
{
    assert(g.push(r).drop_last() =~= g);
    assert(g.push(r).last() == r);
}

/// A prefix's group never out-sums the whole sequence's group.
proof fn lemma_group_sum_grows(rs: Seq<Record>, d: Seq<char>, i: int)
    requires
        0 <= i <= rs.len(),
    ensures
        sum_durations(group_of(rs.take(i), d)) <= sum_durations(group_of(rs, d)),
    decreases rs.len() - i,
{
    if i == rs.len() {
        assert(rs.take(i) =~= rs);
    } else {
        lemma_group_take_step(rs, d, i);
        lemma_group_sum_grows(rs, d, i + 1);
        if in_group(rs[i], d) {
            let g = group_of(rs.take(i), d);
            assert(group_of(rs.take(i + 1), d).drop_last() =~= g);
        }
    }
}

/// Every member of a date group falls on that date and occurs in the record set.
proof fn lemma_group_members(rs: Seq<Record>, d: Seq<char>)
    ensures
        forall|i: int|
            0 <= i < group_of(rs, d).len() ==> in_group(#[trigger] group_of(rs, d)[i], d)
                && rs.contains(group_of(rs, d)[i]),
    decreases rs.len(),
{
    if rs.len() > 0 {
        lemma_group_members(rs.drop_last(), d);
        let g = group_of(rs, d);
        let gp = group_of(rs.drop_last(), d);
        assert forall|i: int| 0 <= i < g.len() implies in_group(g[i], d) && rs.contains(g[i]) by {
            if i < gp.len() {
                assert(g[i] == gp[i]);
                assert(rs.drop_last().contains(gp[i]));
                let w = choose|w: int|
                    0 <= w < rs.drop_last().len() && rs.drop_last()[w] == gp[i];
                assert(rs[w] == gp[i]);
            } else {
                assert(g[i] == rs.last());
                assert(rs[rs.len() - 1] == rs.last());
            }
        }
    }
}

/// Scans the record set for the date group of record `lead`, returning the
/// group's size, total duration, least start second, greatest start second
/// and the duration of a record starting at that greatest second — or `None`
/// when the total does not fit.
fn scan_group(records: &Vec<Record>, keys: &Vec<u64>, secs: &Vec<u32>, lead: usize) -> (r: Option<
    (usize, u64, u32, u32, u64),
>)
    requires
        keys@.len() == records@.len(),
        secs@.len() == records@.len(),
        lead < records@.len(),
        all_valid(records@),
        records@.len() <= i32::MAX,
        forall|j: int|
            0 <= j < records@.len() ==> keys@[j] == date_key(#[trigger] records@[j].created_at@)
                && secs@[j] == secs_of(records@[j].created_at@),
    ensures
        ({
            let d = date_of(records@[lead as int].created_at@);
            let g = group_of(records@, d);
            match r {
                Some(t) => {
                    &&& 1 <= t.0 == g.len()
                    &&& t.0 <= records@.len()
                    &&& t.1 == sum_durations(g)
                    &&& (exists|p: int| 0 <= p < g.len() && secs_of(g[p].created_at@) == t.2)
                    &&& (forall|q: int|
                        0 <= q < g.len() ==> secs_of(#[trigger] g[q].created_at@) >= t.2)
                    &&& (exists|p: int|
                        0 <= p < g.len() && secs_of(g[p].created_at@) == t.3 && g[p].duration
                            == t.4)
                    &&& (forall|q: int|
                        0 <= q < g.len() ==> secs_of(#[trigger] g[q].created_at@) <= t.3)
                },
                None => sum_durations(g) > u64::MAX,
            }
        }),
{
    let ghost d = date_of(records@[lead as int].created_at@);
    let key = keys[lead];
    let mut count: usize = 0;
    let mut sum: u64 = 0;
    let mut mn: u32 = 0;
    let mut mx: u32 = 0;
    let mut mxd: u64 = 0;
    let mut j: usize = 0;
    while j < records.len()
        invariant
            j <= records@.len(),
            keys@.len() == records@.len(),
            secs@.len() == records@.len(),
            lead < records@.len(),
            all_valid(records@),
            records@.len() <= i32::MAX,
            forall|q: int|
                0 <= q < records@.len() ==> keys@[q] == date_key(#[trigger] records@[q].created_at@)
                    && secs@[q] == secs_of(records@[q].created_at@),
            key == date_key(records@[lead as int].created_at@),
            d == date_of(records@[lead as int].created_at@),
            count <= j,
            count == group_of(records@.take(j as int), d).len(),
            sum == sum_durations(group_of(records@.take(j as int), d)),
            count > 0 ==> {
                let g = group_of(records@.take(j as int), d);
                &&& (exists|p: int| 0 <= p < g.len() && secs_of(g[p].created_at@) == mn)
                &&& (forall|q: int|
                    0 <= q < g.len() ==> secs_of(#[trigger] g[q].created_at@) >= mn)
                &&& (exists|p: int|
                    0 <= p < g.len() && secs_of(g[p].created_at@) == mx && g[p].duration == mxd)
                &&& (forall|q: int|
                    0 <= q < g.len() ==> secs_of(#[trigger] g[q].created_at@) <= mx)
            },
            j > lead ==> count > 0,
        decreases records@.len() - j,
    {
        let ghost g = group_of(records@.take(j as int), d);
        proof {
            lemma_group_take_step(records@, d, j as int);
            lemma_date_key_injective(records@[j as int].created_at@, records@[lead as int].created_at@);
        }
        if keys[j] == key {
            let ghost g1 = group_of(records@.take(j as int + 1), d);
            let sj = secs[j];
            let dur = records[j].duration;
            proof {
                assert(g1 == g.push(records@[j as int]));
                lemma_sum_push(g, records@[j as int]);
            }
            if dur > u64::MAX - sum {
                proof {
                    lemma_group_sum_grows(records@, d, j as int + 1);
                    assert(sum_durations(g1) == sum_durations(g) + dur);
                    assert(sum_durations(g1) > u64::MAX);
                    assert(sum_durations(group_of(records@, d)) >= sum_durations(g1));
                    assert(sum_durations(group_of(records@, date_of(records@[lead as int].created_at@))) > u64::MAX);
                }
                return None;
            }
            let ghost c0 = count;
            let ghost mn0 = mn;
            let ghost mx0 = mx;
            let ghost mxd0 = mxd;
            sum = sum + dur;
            if count == 0 {
                mn = sj;
                mx = sj;
                mxd = dur;
            } else {
                if sj < mn {
                    mn = sj;
                }
                if sj >= mx {
                    mx = sj;
                    mxd = dur;
                }
            }
            count = count + 1;
            proof {
                let last = g1.len() - 1;
                assert(g1[last] == records@[j as int]);
                assert(forall|q: int| 0 <= q < g.len() ==> g1[q] == g[q]);
                assert(secs_of(g1[last].created_at@) == sj);
                if c0 == 0 {
                    assert(g.len() == 0);
                    assert(0 <= last < g1.len() && secs_of(g1[last].created_at@) == mn);
                    assert(secs_of(g1[last].created_at@) == mx && g1[last].duration == mxd);
                } else {
                    let pn = choose|p: int| 0 <= p < g.len() && secs_of(g[p].created_at@) == mn0;
                    let px = choose|p: int|
                        0 <= p < g.len() && secs_of(g[p].created_at@) == mx0 && g[p].duration
                            == mxd0;
                    if sj < mn0 {
                        assert(0 <= last < g1.len() && secs_of(g1[last].created_at@) == mn);
                    } else {
                        assert(g1[pn] == g[pn]);
                        assert(0 <= pn < g1.len() && secs_of(g1[pn].created_at@) == mn);
                    }
                    if sj >= mx0 {
                        assert(0 <= last < g1.len() && secs_of(g1[last].created_at@) == mx
                            && g1[last].duration == mxd);
                    } else {
                        assert(g1[px] == g[px]);
                        assert(0 <= px < g1.len() && secs_of(g1[px].created_at@) == mx
                            && g1[px].duration == mxd);
                    }
                }
                assert forall|q: int| 0 <= q < g1.len() implies secs_of(
                    #[trigger] g1[q].created_at@,
                ) >= mn && secs_of(g1[q].created_at@) <= mx by {
                    if q < g.len() {
                        assert(g1[q] == g[q]);
                        if c0 == 0 {
                            assert(false);
                        }
                    } else {
                        assert(g1[q] == records@[j as int]);
                    }
                }
            }
        }
        j = j + 1;
    }
    proof {
        assert(records@.take(records@.len() as int) =~= records@);
    }
    Some((count, sum, mn, mx, mxd))
}

/// Each member of a date group is well formed when the whole record set is,
/// and falls on the group's date.
pub proof fn lemma_group_member_valid(rs: Seq<Record>, d: Seq<char>, i: int)
    requires
        all_valid(rs),
        0 <= i < group_of(rs, d).len(),
    ensures
        ts_valid(group_of(rs, d)[i].created_at@),
        in_group(group_of(rs, d)[i], d),
{
    lemma_group_members(rs, d);
    let g = group_of(rs, d);
    assert(rs.contains(g[i]));
    let w = choose|w: int| 0 <= w < rs.len() && rs[w] == g[i];
    assert(ts_valid(rs[w].created_at@));
}

/// A member at the least start second is earliest; one at the greatest is
/// latest.
proof fn lemma_extreme_witnesses(g: Seq<Record>, mn: u32, mx: u32, mxd: u64)
    requires
        exists|p: int| 0 <= p < g.len() && secs_of(g[p].created_at@) == mn,
        forall|q: int| 0 <= q < g.len() ==> secs_of(#[trigger] g[q].created_at@) >= mn,
        exists|p: int|
            0 <= p < g.len() && secs_of(g[p].created_at@) == mx && g[p].duration == mxd,
        forall|q: int| 0 <= q < g.len() ==> secs_of(#[trigger] g[q].created_at@) <= mx,
    ensures
        exists|i: int| is_earliest(g, i) && secs_of(g[i].created_at@) == mn,
        exists|j: int|
            is_latest(g, j) && secs_of(g[j].created_at@) == mx && g[j].duration == mxd,
{
    let p = choose|p: int| 0 <= p < g.len() && secs_of(g[p].created_at@) == mn;
    assert(is_earliest(g, p) && secs_of(g[p].created_at@) == mn);
    let p2 = choose|p2: int|
        0 <= p2 < g.len() && secs_of(g[p2].created_at@) == mx && g[p2].duration == mxd;
    assert(is_latest(g, p2) && secs_of(g[p2].created_at@) == mx && g[p2].duration == mxd);
}

/// Wrapping the pre-reduced duration past midnight equals wrapping the sum.
proof fn lemma_end_mod(secs: int, dur: u64, e: u64)
    requires
        0 <= secs < 86400,
        e == ((secs + dur % 86400) % 86400),
    ensures
        e == (secs + dur) % 86400,
{
    lemma_add_mod_noop(secs, dur as int, 86400);
}

/// A scanned group's counts, extremes and formatted fields make a row that
/// matches the group.
proof fn lemma_row_from_scan(
    rs: Seq<Record>,
    lead: int,
    h: History,
    count: usize,
    mn: u32,
    mx: u32,
    mxd: u64,
    e: u64,
)
    requires
        0 <= lead < rs.len(),
        all_valid(rs),
        rs.len() <= i32::MAX,
        ({
            let d = date_of(rs[lead].created_at@);
            let g = group_of(rs, d);
            &&& 1 <= count == g.len()
            &&& count <= rs.len()
            &&& h.total_pauses == count - 1
            &&& h.total_duration == sum_durations(g)
            &&& (exists|p: int| 0 <= p < g.len() && secs_of(g[p].created_at@) == mn)
            &&& (forall|q: int| 0 <= q < g.len() ==> secs_of(#[trigger] g[q].created_at@) >= mn)
            &&& (exists|p: int|
                0 <= p < g.len() && secs_of(g[p].created_at@) == mx && g[p].duration == mxd)
            &&& (forall|q: int| 0 <= q < g.len() ==> secs_of(#[trigger] g[q].created_at@) <= mx)
            &&& h.record_date@ == date_str_of_key(date_key(rs[lead].created_at@))
            &&& h.start_time@ == duration_str(mn as nat)
            &&& e == ((mx as u64) + mxd % 86400) % 86400
            &&& h.end_time@ == duration_str(e as nat)
        }),
    ensures
        row_matches(h, group_of(rs, date_of(rs[lead].created_at@))),
        h.record_date@ == date_of(rs[lead].created_at@),
{
    let d = date_of(rs[lead].created_at@);
    let g = group_of(rs, d);
    lemma_date_of_key(rs[lead].created_at@);
    lemma_extreme_witnesses(g, mn, mx, mxd);
    let j = choose|j: int|
        is_latest(g, j) && secs_of(g[j].created_at@) == mx && g[j].duration == mxd;
    lemma_group_member_valid(rs, d, j);
    assert(0 <= secs_of(g[j].created_at@) < 86400);
    lemma_end_mod(mx as int, mxd, e);
    assert(e == (secs_of(g[j].created_at@) + g[j].duration) % 86400);
    let i = choose|i: int| is_earliest(g, i) && secs_of(g[i].created_at@) == mn;
    assert(h.start_time@ == duration_str(secs_of(g[i].created_at@) as nat));
    lemma_group_member_valid(rs, d, 0);
    assert(h.record_date@ == date_of(g[0].created_at@));
}

/// Builds the history row of the date group led by record `lead`, or reports
/// that the group's total duration does not fit.
fn build_row(records: &Vec<Record>, keys: &Vec<u64>, secs: &Vec<u32>, lead: usize) -> (r: Option<
    History,
>)
    requires
        keys@.len() == records@.len(),
        secs@.len() == records@.len(),
        lead < records@.len(),
        all_valid(records@),
        records@.len() <= i32::MAX,
        forall|j: int|
            0 <= j < records@.len() ==> keys@[j] == date_key(#[trigger] records@[j].created_at@)
                && secs@[j] == secs_of(records@[j].created_at@),
    ensures
        r matches Some(h) ==> {
            &&& row_matches(h, group_of(records@, date_of(records@[lead as int].created_at@)))
            &&& h.record_date@ == date_of(records@[lead as int].created_at@)
        },
        r is None ==> sum_durations(
            group_of(records@, date_of(records@[lead as int].created_at@)),
        ) > u64::MAX,
{
    let scanned = scan_group(records, keys, secs, lead);
    match scanned {
        None => None,
        Some(t) => {
            let (count, sum, mn, mx, mxd) = t;
            let key = keys[lead];
            let pauses: i32 = (count - 1) as i32;
            let date_s = format_date_key(key);
            let start_s = format_duration(mn as u64);
            let e: u64 = ((mx as u64) + mxd % 86400) % 86400;
            let end_s = format_duration(e);
            let h = History {
                total_pauses: pauses,
                total_duration: sum,
                record_date: date_s,
                start_time: start_s,
                end_time: end_s,
            };
            proof {
                lemma_row_from_scan(records@, lead as int, h, count, mn, mx, mxd, e);
            }
            Some(h)
        },
    }
}

/// Aggregates a set of raw records into one history row per calendar date.
///
/// The result is an exact aggregate whenever the record set admits one; a
/// record set with a malformed timestamp, an overflowing per-date total or an
/// unrepresentable record count yields the empty history instead.
pub fn aggregate(records: &Vec<Record>) -> (out: Vec<History>)
    ensures
        aggregate_post(out@, records@),
{
    let empty: Vec<History> = Vec::new();
    if records.len() > (i32::MAX as usize) {
        return empty;
    }
    // Parse and validate every timestamp once.
    let mut keys: Vec<u64> = Vec::new();
    let mut secs: Vec<u32> = Vec::new();
    let mut i: usize = 0;
    while i < records.len()
        invariant
            i <= records@.len(),
            records@.len() <= i32::MAX,
            keys@.len() == i,
            secs@.len() == i,
            forall|j: int|
                0 <= j < i ==> {
                    &&& ts_valid(#[trigger] records@[j].created_at@)
                    &&& keys@[j] == date_key(records@[j].created_at@)
                    &&& secs@[j] == secs_of(records@[j].created_at@)
                },
        decreases records@.len() - i,
    {
        match parse_timestamp(records[i].created_at.as_str()) {
            Some(p) => {
                keys.push(p.0);
                secs.push(p.1);
            },
            None => {
                proof {
                    assert(!ts_valid(records@[i as int].created_at@));
                    assert(!all_valid(records@));
                    assert(!aggregatable(records@));
                }
                let none_seen: Vec<History> = Vec::new();
                return none_seen;
            },
        }
        i = i + 1;
    }
    // Collect the first occurrence of each distinct date.
    let mut leaders: Vec<usize> = Vec::new();
    let mut i: usize = 0;
    while i < records.len()
        invariant
            i <= records@.len(),
            records@.len() <= i32::MAX,
            keys@.len() == records@.len(),
            secs@.len() == records@.len(),
            forall|j: int|
                0 <= j < records@.len() ==> {
                    &&& ts_valid(#[trigger] records@[j].created_at@)
                    &&& keys@[j] == date_key(records@[j].created_at@)
                    &&& secs@[j] == secs_of(records@[j].created_at@)
                },
            forall|l: int| 0 <= l < leaders@.len() ==> (#[trigger] leaders@[l]) < records@.len(),
            forall|a: int, b: int|
                0 <= a < b < leaders@.len() ==> keys@[#[trigger] leaders@[a] as int] != keys@[
                    #[trigger] leaders@[b] as int],
            keys_covered(keys@, leaders@, i as int),
        decreases records@.len() - i,
    {
        let k = keys[i];
        let mut found = false;
        let mut l: usize = 0;
        while l < leaders.len()
            invariant
                l <= leaders@.len(),
                keys@.len() == records@.len(),
                forall|t: int|
                    0 <= t < leaders@.len() ==> (#[trigger] leaders@[t]) < records@.len(),
                found ==> exists|t: int|
                    0 <= t < leaders@.len() && keys@[#[trigger] leaders@[t] as int] == k,
                !found ==> forall|t: int|
                    0 <= t < l ==> keys@[#[trigger] leaders@[t] as int] != k,
            decreases leaders@.len() - l,
        {
            if keys[leaders[l]] == k {
                found = true;
            }
            l = l + 1;
        }
        let ghost old_leaders = leaders@;
        if !found {
            leaders.push(i);
        }
        proof {
            assert(keys_covered(keys@, old_leaders, i as int));
            assert(forall|t: int|
                0 <= t < old_leaders.len() ==> leaders@[t] == old_leaders[t]);
            assert forall|j: int| 0 <= j < i + 1 implies exists|l: int|
                0 <= l < leaders@.len() && keys@[#[trigger] leaders@[l] as int] == #[trigger] keys@[j] by {
                if j < i {
                    let kj = keys@[j];
                    let l0 = choose|l0: int|
                        0 <= l0 < old_leaders.len() && keys@[#[trigger] old_leaders[l0] as int]
                            == keys@[j];
                    assert(keys@[leaders@[l0] as int] == keys@[j]);
                } else if found {
                    let t = choose|t: int|
                        0 <= t < old_leaders.len() && keys@[#[trigger] old_leaders[t] as int] == k;
                    assert(keys@[leaders@[t] as int] == keys@[j]);
                } else {
                    let l1 = leaders@.len() - 1;
                    assert(leaders@[l1] == i);
                    assert(keys@[leaders@[l1] as int] == keys@[j]);
                }
            }
            assert(keys_covered(keys@, leaders@, i as int + 1));
        }
        i = i + 1;
    }
    proof {
        assert(i == records@.len());
        assert(keys_covered(keys@, leaders@, records@.len() as int));
    }
    // Build one row per distinct date.
    let mut out: Vec<History> = Vec::new();
    let mut li: usize = 0;
    while li < leaders.len()
        invariant
            li <= leaders@.len(),
            out@.len() == li,
            records@.len() <= i32::MAX,
            keys@.len() == records@.len(),
            secs@.len() == records@.len(),
            forall|j: int|
                0 <= j < records@.len() ==> {
                    &&& ts_valid(#[trigger] records@[j].created_at@)
                    &&& keys@[j] == date_key(records@[j].created_at@)
                    &&& secs@[j] == secs_of(records@[j].created_at@)
                },
            forall|l: int| 0 <= l < leaders@.len() ==> (#[trigger] leaders@[l]) < records@.len(),
            forall|a: int, b: int|
                0 <= a < b < leaders@.len() ==> keys@[#[trigger] leaders@[a] as int] != keys@[
                    #[trigger] leaders@[b] as int],
            keys_covered(keys@, leaders@, records@.len() as int),
            forall|x: int|
                0 <= x < li ==> (#[trigger] out@[x]).record_date@ == date_of(
                    records@[leaders@[x] as int].created_at@,
                ) && row_matches(out@[x], group_of(records@, out@[x].record_date@)),
        decreases leaders@.len() - li,
    {
        match build_row(records, &keys, &secs, leaders[li]) {
            Some(h) => {
                out.push(h);
            },
            None => {
                proof {
                    let lead = leaders@[li as int];
                    assert(!group_sums_fit(records@)) by {
                        assert(sum_durations(
                            group_of(records@, date_of(records@[lead as int].created_at@)),
                        ) > u64::MAX);
                    }
                }
                let empty2: Vec<History> = Vec::new();
                return empty2;
            },
        }
        li = li + 1;
    }
    proof {
        assert forall|x: int, y: int| 0 <= x < y < out@.len() implies out@[x].record_date@
            != out@[y].record_date@ by {
            lemma_date_key_injective(
                records@[leaders@[x] as int].created_at@,
                records@[leaders@[y] as int].created_at@,
            );
        }
        assert forall|k: int| 0 <= k < records@.len() implies exists|x: int|
            0 <= x < out@.len() && (#[trigger] out@[x].record_date@) == date_of(
                #[trigger] records@[k].created_at@,
            ) by {
            assert(keys_covered(keys@, leaders@, records@.len() as int));
            let kk = keys@[k];
            let l = choose|l: int|
                0 <= l < leaders@.len() && keys@[#[trigger] leaders@[l] as int] == keys@[k];
            lemma_date_key_injective(
                records@[leaders@[l] as int].created_at@,
                records@[k].created_at@,
            );
            assert(out@[l].record_date@ == date_of(records@[k].created_at@));
        }
    }
    out
}

/// A history row's pause count is the size of its date group less one, and
/// is never negative.
pub proof fn lemma_pauses_count(h: History, g: Seq<Record>)
    requires
        row_matches(h, g),
    ensures
        h.total_pauses == g.len() - 1,
        h.total_pauses >= 0,
{
}

/// A row's end time is the time of day at which the group's latest record
/// ended: the latest record's start second plus that same record's duration,
/// wrapped past midnight — not the greatest of the records' own end times.
pub proof fn lemma_end_time_last_session(h: History, g: Seq<Record>)
    requires
        row_matches(h, g),
    ensures
        exists|j: int|
            is_latest(g, j) && h.end_time@ == duration_str(
                ((secs_of(g[j].created_at@) + g[j].duration) % 86400) as nat,
            ),
{
}

/// A row's start time is literally the time-of-day portion of the earliest
/// record's timestamp.
pub proof fn lemma_start_time_earliest(h: History, g: Seq<Record>)
    requires
        row_matches(h, g),
        forall|q: int| 0 <= q < g.len() ==> ts_valid(#[trigger] g[q].created_at@),
    ensures
        exists|i: int| is_earliest(g, i) && h.start_time@ == tod_of(g[i].created_at@),
{
    let i = choose|i: int|
        is_earliest(g, i) && h.start_time@ == duration_str(secs_of(g[i].created_at@) as nat);
    lemma_tod_str(g[i].created_at@);
    assert(is_earliest(g, i) && h.start_time@ == tod_of(g[i].created_at@));
}

/// Removing one record takes its duration out of the sum.
proof fn lemma_sum_remove(g: Seq<Record>, i: int)
    requires
        0 <= i < g.len(),
    ensures
        sum_durations(g.remove(i)) == sum_durations(g) - g[i].duration,
    decreases g.len(),
{
    if i == g.len() - 1 {
        assert(g.remove(i) =~= g.drop_last());
    } else {
        lemma_sum_remove(g.drop_last(), i);
        assert(g.remove(i).drop_last() =~= g.drop_last().remove(i));
        assert(g.remove(i).last() == g.last());
    }
}

/// Groups with the same records in any order have the same duration sum.
proof fn lemma_sum_multiset(g1: Seq<Record>, g2: Seq<Record>)
    requires
        g1.to_multiset() == g2.to_multiset(),
    ensures
        sum_durations(g1) == sum_durations(g2),
    decreases g1.len(),
{
    broadcast use vstd::seq_lib::group_to_multiset_ensures;
    broadcast use vstd::multiset::group_multiset_axioms;

    if g1.len() == 0 {
        assert(g1.to_multiset().len() == g1.len());
        assert(g2.to_multiset().len() == g2.len());
    } else {
        let x = g1.last();
        assert(g1 =~= g1.drop_last().push(x));
        assert(g1.to_multiset() == g1.drop_last().to_multiset().insert(x));
        assert(g2.to_multiset().count(x) > 0);
        assert(g2.contains(x));
        let w = choose|w: int| 0 <= w < g2.len() && g2[w] == x;
        assert(g2.remove(w).to_multiset() == g2.to_multiset().remove(x));
        assert(g2.remove(w).to_multiset() =~= g1.drop_last().to_multiset());
        lemma_sum_multiset(g1.drop_last(), g2.remove(w));
        lemma_sum_remove(g2, w);
    }
}

/// Membership in a date group, from membership in the record set.
proof fn lemma_group_contains(rs: Seq<Record>, d: Seq<char>, i: int)
    requires
        0 <= i < rs.len(),
        in_group(rs[i], d),
    ensures
        group_of(rs, d).contains(rs[i]),
    decreases rs.len(),
{
    if i == rs.len() - 1 {
        let g = group_of(rs, d);
        assert(g.last() == rs[i]);
        assert(g[g.len() - 1] == rs[i]);
    } else {
        lemma_group_contains(rs.drop_last(), d, i);
        assert(rs.drop_last()[i] == rs[i]);
        let gp = group_of(rs.drop_last(), d);
        let w = choose|w: int| 0 <= w < gp.len() && gp[w] == rs[i];
        let g = group_of(rs, d);
        if in_group(rs.last(), d) {
            assert(g[w] == gp[w]);
        } else {
            assert(g == gp);
        }
    }
}

/// Removing one record from the set removes at most that record from a
/// date's group, seen as a bag.
proof fn lemma_group_remove(rs: Seq<Record>, d: Seq<char>, w: int)
    requires
        0 <= w < rs.len(),
    ensures
        in_group(rs[w], d) ==> group_of(rs.remove(w), d).to_multiset() == group_of(
            rs,
            d,
        ).to_multiset().remove(rs[w]),
        !in_group(rs[w], d) ==> group_of(rs.remove(w), d).to_multiset() == group_of(
            rs,
            d,
        ).to_multiset(),
    decreases rs.len(),
{
    broadcast use vstd::seq_lib::group_to_multiset_ensures;
    broadcast use vstd::multiset::group_multiset_axioms;

    if w == rs.len() - 1 {
        assert(rs.remove(w) =~= rs.drop_last());
        if in_group(rs[w], d) {
            let gp = group_of(rs.drop_last(), d);
            assert(group_of(rs, d) == gp.push(rs[w]));
            assert(group_of(rs, d).to_multiset() == gp.to_multiset().insert(rs[w]));
            assert(gp.to_multiset() =~= gp.to_multiset().insert(rs[w]).remove(rs[w]));
        }
    } else {
        lemma_group_remove(rs.drop_last(), d, w);
        let x = rs.last();
        assert(rs.remove(w).drop_last() =~= rs.drop_last().remove(w));
        assert(rs.remove(w).last() == x);
        let gp = group_of(rs.drop_last(), d);
        let gpr = group_of(rs.drop_last().remove(w), d);
        if in_group(x, d) {
            assert(group_of(rs, d) == gp.push(x));
            assert(group_of(rs.remove(w), d) == gpr.push(x));
            assert(group_of(rs, d).to_multiset() == gp.to_multiset().insert(x));
            assert(group_of(rs.remove(w), d).to_multiset() == gpr.to_multiset().insert(x));
            if in_group(rs[w], d) {
                assert(gpr.to_multiset().insert(x) =~= gp.to_multiset().remove(
                    rs[w],
                ).insert(x));
                assert(gp.to_multiset().remove(rs[w]).insert(x) =~= gp.to_multiset().insert(
                    x,
                ).remove(rs[w])) by {
                    lemma_group_contains(rs.drop_last(), d, w);
                    assert(gp.to_multiset().count(rs[w]) > 0);
                }
            }
        } else {
            assert(group_of(rs, d) == gp);
            assert(group_of(rs.remove(w), d) == gpr);
        }
    }
}

/// Reordering the record set reorders each date's group but keeps its
/// records, seen as a bag.
proof fn lemma_group_perm(rs1: Seq<Record>, rs2: Seq<Record>, d: Seq<char>)
    requires
        rs1.to_multiset() == rs2.to_multiset(),
    ensures
        group_of(rs1, d).to_multiset() == group_of(rs2, d).to_multiset(),
    decreases rs1.len(),
{
    broadcast use vstd::seq_lib::group_to_multiset_ensures;
    broadcast use vstd::multiset::group_multiset_axioms;

    if rs1.len() == 0 {
        assert(rs1.to_multiset().len() == rs1.len());
        assert(rs2.to_multiset().len() == rs2.len());
    } else {
        let x = rs1.last();
        assert(rs1 =~= rs1.drop_last().push(x));
        assert(rs1.to_multiset() == rs1.drop_last().to_multiset().insert(x));
        assert(rs2.to_multiset().count(x) > 0);
        assert(rs2.contains(x));
        let w = choose|w: int| 0 <= w < rs2.len() && rs2[w] == x;
        assert(rs2.remove(w).to_multiset() == rs2.to_multiset().remove(x));
        assert(rs2.remove(w).to_multiset() =~= rs1.drop_last().to_multiset());
        lemma_group_perm(rs1.drop_last(), rs2.remove(w), d);
        lemma_group_remove(rs2, d, w);
        let gp1 = group_of(rs1.drop_last(), d);
        if in_group(x, d) {
            assert(group_of(rs1, d) == gp1.push(x));
            assert(group_of(rs1, d).to_multiset() == gp1.to_multiset().insert(x));
            lemma_group_contains(rs2, d, w);
            assert(group_of(rs2, d).to_multiset().count(x) > 0);
            assert(group_of(rs2, d).to_multiset() =~= group_of(rs2, d).to_multiset().remove(
                x,
            ).insert(x));
        }
    }
}

/// A date group's total duration does not depend on the order of the record
/// set: reordering the records leaves every date's exact sum unchanged.
pub proof fn lemma_sum_order_independent(rs1: Seq<Record>, rs2: Seq<Record>, d: Seq<char>)
    requires
        rs1.to_multiset() == rs2.to_multiset(),
    ensures
        sum_durations(group_of(rs1, d)) == sum_durations(group_of(rs2, d)),
{
    lemma_group_perm(rs1, rs2, d);
    lemma_sum_multiset(group_of(rs1, d), group_of(rs2, d));
}

} // verus!
