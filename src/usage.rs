use vstd::prelude::*;
use vstd::arithmetic::div_mod::{
    lemma_div_multiples_vanish_fancy,
    lemma_fundamental_div_mod,
    lemma_mod_multiples_vanish,
    lemma_small_mod,
};
use crate::sessions::{ascending, is_partition, spans, split_sessions, lemma_spans_shape};

verus! {

pub const SECONDS_PER_DAY: i64 = 86400;

/// Largest distance from the epoch, in seconds, of a ping that the calendar
/// labels can represent; pings further out are left out of usage reports.
pub const MAX_PING_SECS: i64 = 7_000_000_000_000;

/// Largest distance from the epoch, in days, of a labelled calendar day.
pub const MAX_LABEL_DAYS: i64 = 90_000_000;

/// Shift that makes every local time of a representable ping non-negative,
/// a whole number of days.
const DAY_SHIFT: i64 = 100_000_000;

/// One session of a usage day.
#[derive(Clone, Debug)]
pub struct UsageSession {
    /// Local wall-clock time of the first ping, as `HH:MM`.
    pub start: String,
    /// Local wall-clock time of the last ping, as `HH:MM`.
    pub end: String,
    pub start_ts: i64,
    pub end_ts: i64,
    pub duration_minutes: u32,
}

/// The sessions of one local calendar day.
#[derive(Clone, Debug)]
pub struct UsageDay {
    /// The local date, as `YYYY-MM-DD`.
    pub date: String,
    pub total_minutes: u32,
    pub sessions: Vec<UsageSession>,
}

/// The `YYYY-MM-DD` text of the calendar day `day`, counted from 1970-01-01.
pub uninterp spec fn date_label_of(day: int) -> Seq<char>;

pub open spec fn digit(n: int) -> char {
    seq!['0', '1', '2', '3', '4', '5', '6', '7', '8', '9'][n]
}

/// `HH:MM` of the time `secs` seconds after midnight.
pub open spec fn clock_text(secs: int) -> Seq<char> {
    let h = secs / 3600;
    let m = secs % 3600 / 60;
    seq![digit(h / 10), digit(h % 10), ':', digit(m / 10), digit(m % 10)]
}

/// Relies on chrono's `NaiveDate::from_epoch_days` and its `%Y-%m-%d` format
/// for the text of a calendar day; the range is well inside chrono's dates.
#[verifier::external_body]
fn date_label(day: i64) -> (r: String)
    requires
        -MAX_LABEL_DAYS <= day <= MAX_LABEL_DAYS,
    ensures
        r@ == date_label_of(day as int),
{
    chrono::NaiveDate::from_epoch_days(day as i32).unwrap().format("%Y-%m-%d").to_string()
}

/// Relies on chrono's `NaiveTime::from_num_seconds_from_midnight_opt` and its
/// `%H:%M` format: two-digit hour and minute of a time of day.
#[verifier::external_body]
fn clock_label(secs: u32) -> (r: String)
    requires
        secs < 86400,
    ensures
        r@ == clock_text(secs as int),
{
    chrono::NaiveTime::from_num_seconds_from_midnight_opt(secs, 0).unwrap().format(
        "%H:%M",
    ).to_string()
}

/// Relies on chrono's `Local` time zone (`TimeZone::offset_from_utc_datetime`
/// and `FixedOffset::local_minus_utc`): the offset of local time from UTC, in
/// seconds, at the instant `ts`, as the host's zone data gives it.  Offsets of `FixedOffset` lie strictly
/// within one day.
#[verifier::external_body]
fn local_offset(ts: i64) -> (r: i32)
    requires
        -MAX_PING_SECS <= ts <= MAX_PING_SECS,
    ensures
        -86400 < r < 86400,
{
    let utc = chrono::DateTime::from_timestamp(ts, 0).unwrap().naive_utc();
    <chrono::Local as chrono::TimeZone>::offset_from_utc_datetime(&chrono::Local, &utc)
        .local_minus_utc()
}


/// The values of `vals` whose day in `days` is `d`, in their order.
pub open spec fn select(vals: Seq<i64>, days: Seq<i64>, d: i64) -> Seq<i64>
    decreases vals.len(),
{
    if vals.len() == 0 {
        seq![]
    } else {
        let prev = select(vals.drop_last(), days.drop_last(), d);
        if days[vals.len() - 1] == d {
            prev.push(vals.last())
        } else {
            prev
        }
    }
}

proof fn lemma_select_len(a: Seq<i64>, b: Seq<i64>, days: Seq<i64>, d: i64)
    requires
        a.len() == b.len(),
        a.len() <= days.len(),
    ensures
        select(a, days, d).len() == select(b, days, d).len(),
        select(a, days, d).len() <= a.len(),
    decreases a.len(),
{
    if a.len() > 0 {
        lemma_select_len(a.drop_last(), b.drop_last(), days.drop_last(), d);
    }
}

proof fn lemma_select_bounds(vals: Seq<i64>, days: Seq<i64>, d: i64, lo: int, hi: int)
    requires
        vals.len() <= days.len(),
        forall|i: int| 0 <= i < vals.len() ==> lo <= #[trigger] vals[i] <= hi,
    ensures
        forall|k: int|
            0 <= k < select(vals, days, d).len() ==> lo <= #[trigger] select(vals, days, d)[k]
                <= hi,
    decreases vals.len(),
{
    if vals.len() > 0 {
        let v = vals.drop_last();
        assert(forall|i: int| 0 <= i < v.len() ==> v[i] == vals[i]);
        lemma_select_bounds(v, days.drop_last(), d, lo, hi);
        let prev = select(v, days.drop_last(), d);
        let cur = select(vals, days, d);
        assert(lo <= vals[vals.len() - 1] <= hi);
        assert forall|k: int| 0 <= k < cur.len() implies lo <= #[trigger] cur[k] <= hi by {
            if k < prev.len() {
                assert(cur[k] == prev[k]);
            }
        }
    }
}

proof fn lemma_select_ascending(vals: Seq<i64>, days: Seq<i64>, d: i64)
    requires
        vals.len() <= days.len(),
        ascending(vals),
    ensures
        ascending(select(vals, days, d)),
    decreases vals.len(),
{
    if vals.len() > 0 {
        let v = vals.drop_last();
        assert(ascending(v));
        lemma_select_ascending(v, days.drop_last(), d);
        lemma_select_bounds(v, days.drop_last(), d, i64::MIN as int, vals.last() as int);
    }
}

/// The day number of each local time.
pub open spec fn days_of(local: Seq<i64>) -> Seq<i64> {
    local.map_values(|t: i64| (t as int / SECONDS_PER_DAY as int) as i64)
}

/// Local times: each instant moved by its offset.
pub open spec fn local_times(ts: Seq<i64>, offsets: Seq<i32>) -> Seq<i64> {
    Seq::new(ts.len(), |i: int| (ts[i] + offsets[i]) as i64)
}

/// `keys` lists each day of `days` once, in ascending order.
pub open spec fn day_keys(keys: Seq<i64>, days: Seq<i64>) -> bool {
    &&& forall|i: int, j: int| 0 <= i < j < keys.len() ==> keys[i] < keys[j]
    &&& forall|i: int| 0 <= i < days.len() ==> keys.contains(#[trigger] days[i])
    &&& forall|k: int| 0 <= k < keys.len() ==> days.contains(#[trigger] keys[k])
}

/// Sorted distinct day numbers.
fn distinct_days(days: &Vec<i64>) -> (keys: Vec<i64>)
    ensures
        day_keys(keys@, days@),
{
    let mut keys: Vec<i64> = Vec::new();
    let mut i: usize = 0;
    while i < days.len()
        invariant
            i <= days.len(),
            day_keys(keys@, days@.take(i as int)),
        decreases days.len() - i,
    {
        let d = days[i];
        let mut pos: usize = 0;
        while pos < keys.len() && keys[pos] < d
            invariant
                pos <= keys.len(),
                forall|j: int| 0 <= j < pos ==> keys@[j] < d,
            decreases keys.len() - pos,
        {
            pos = pos + 1;
        }
        let ghost old_keys = keys@;
        assert(days@.take(i + 1) =~= days@.take(i as int).push(d));
        if pos < keys.len() && keys[pos] == d {
            assert(keys@.contains(d));
        } else {
            keys.insert(pos, d);
            assert forall|j: int| 0 <= j < old_keys.len() implies keys@.contains(
                #[trigger] old_keys[j],
            ) by {
                if j < pos {
                    assert(keys@[j] == old_keys[j]);
                } else {
                    assert(keys@[j + 1] == old_keys[j]);
                }
            }
            assert(keys@[pos as int] == d);
        }
        assert forall|k: int| 0 <= k < keys@.len() implies days@.take(i + 1).contains(
            #[trigger] keys@[k],
        ) by {
            if keys@[k] != d {
                assert(old_keys.contains(keys@[k]));
                let w = choose|w: int| 0 <= w < i && days@.take(i as int)[w] == keys@[k];
                assert(days@.take(i + 1)[w] == keys@[k]);
            } else {
                assert(days@.take(i + 1)[i as int] == d);
            }
        }
        assert forall|w: int| 0 <= w < i + 1 implies keys@.contains(
            #[trigger] days@.take(i + 1)[w],
        ) by {
            if w < i {
                assert(days@.take(i as int)[w] == days@.take(i + 1)[w]);
                assert(old_keys.contains(days@.take(i as int)[w]));
            }
        }
        i = i + 1;
    }
    assert(days@.take(days@.len() as int) =~= days@);
    keys
}

/// The values whose day is `d`, in their order.
fn select_day(vals: &Vec<i64>, days: &Vec<i64>, d: i64) -> (r: Vec<i64>)
    requires
        vals@.len() == days@.len(),
    ensures
        r@ == select(vals@, days@, d),
{
    let mut r: Vec<i64> = Vec::new();
    let mut i: usize = 0;
    while i < vals.len()
        invariant
            i <= vals.len(),
            vals@.len() == days@.len(),
            r@ == select(vals@.take(i as int), days@.take(i as int), d),
        decreases vals.len() - i,
    {
        assert(vals@.take(i + 1).drop_last() =~= vals@.take(i as int));
        assert(days@.take(i + 1).drop_last() =~= days@.take(i as int));
        if days[i] == d {
            r.push(vals[i]);
        }
        i = i + 1;
    }
    assert(vals@.take(i as int) =~= vals@);
    assert(days@.take(i as int) =~= days@);
    r
}

/// Day number and seconds since local midnight of a local time.
fn split_local(local: i64) -> (r: (i64, u32))
    requires
        -(MAX_PING_SECS + SECONDS_PER_DAY) <= local <= MAX_PING_SECS + SECONDS_PER_DAY,
    ensures
        r.0 == local as int / SECONDS_PER_DAY as int,
        r.1 == local as int % SECONDS_PER_DAY as int,
        -MAX_LABEL_DAYS <= r.0 <= MAX_LABEL_DAYS,
{
    let shifted: i64 = local + DAY_SHIFT * SECONDS_PER_DAY;
    proof {
        let q = local as int / 86400;
        let rem = local as int % 86400;
        lemma_fundamental_div_mod(local as int, 86400);
        assert(shifted as int == 86400 * (q + DAY_SHIFT) + rem);
        lemma_div_multiples_vanish_fancy(q + DAY_SHIFT, rem, 86400);
        lemma_mod_multiples_vanish(q + DAY_SHIFT, rem, 86400);
        lemma_small_mod(rem as nat, 86400);
    }
    (shifted / SECONDS_PER_DAY - DAY_SHIFT, (shifted % SECONDS_PER_DAY) as u32)
}

/// Displayed length of a session of `secs` seconds: the nearest whole
/// minute, halves rounded up, and never less than one minute.
pub open spec fn rounded_minutes(secs: int) -> u32 {
    if secs < 30 {
        1
    } else if (secs + 30) / 60 > u32::MAX {
        u32::MAX
    } else {
        ((secs + 30) / 60) as u32
    }
}

/// Whole minutes in `secs` seconds, rounded down.
pub open spec fn whole_minutes(secs: int) -> u32 {
    if secs / 60 > u32::MAX {
        u32::MAX
    } else {
        (secs / 60) as u32
    }
}

fn minutes_of(secs: i64) -> (r: u32)
    requires
        secs >= 0,
    ensures
        r == rounded_minutes(secs as int),
{
    if secs < 30 {
        1
    } else if (secs / 60 + (if secs % 60 >= 30 { 1i64 } else { 0i64 })) > u32::MAX as i64 {
        u32::MAX
    } else {
        (secs / 60 + (if secs % 60 >= 30 { 1i64 } else { 0i64 })) as u32
    }
}

/// Sum of the unrounded lengths, in seconds, of the sessions `sp` of `ts`.
pub open spec fn total_seconds(ts: Seq<i64>, sp: Seq<(int, int)>) -> int
    decreases sp.len(),
{
    if sp.len() == 0 {
        0
    } else {
        total_seconds(ts, sp.drop_last()) + ts[sp.last().1] - ts[sp.last().0]
    }
}

pub open spec fn session_matches(
    s: UsageSession,
    ts: Seq<i64>,
    local: Seq<i64>,
    span: (int, int),
) -> bool {
    &&& s.start_ts == ts[span.0]
    &&& s.end_ts == ts[span.1]
    &&& s.start@ == clock_text(local[span.0] as int % SECONDS_PER_DAY as int)
    &&& s.end@ == clock_text(local[span.1] as int % SECONDS_PER_DAY as int)
    &&& s.duration_minutes == rounded_minutes(ts[span.1] - ts[span.0])
}

/// `u` reports the day `day` whose pings are `ts`, with local times `local`.
pub open spec fn day_matches(
    u: UsageDay,
    ts: Seq<i64>,
    local: Seq<i64>,
    day: i64,
    thr: int,
) -> bool {
    let sp = spans(ts, thr);
    &&& u.date@ == date_label_of(day as int)
    &&& u.sessions@.len() == sp.len()
    &&& forall|k: int|
        0 <= k < sp.len() ==> session_matches(#[trigger] u.sessions@[k], ts, local, sp[k])
    &&& u.total_minutes == whole_minutes(total_seconds(ts, sp))
}

/// Builds the report of one day from its pings, ascending, and their local
/// times.
fn build_day(ts: &Vec<i64>, local: &Vec<i64>, day: i64, threshold: u32) -> (r: UsageDay)
    requires
        ts@.len() == local@.len(),
        ascending(ts@),
        forall|i: int| 0 <= i < ts@.len() ==> -MAX_PING_SECS <= #[trigger] ts@[i] <= MAX_PING_SECS,
        forall|i: int|
            0 <= i < local@.len() ==> -(MAX_PING_SECS + SECONDS_PER_DAY) <= #[trigger] local@[i]
                <= MAX_PING_SECS + SECONDS_PER_DAY,
        -MAX_LABEL_DAYS <= day <= MAX_LABEL_DAYS,
    ensures
        day_matches(r, ts@, local@, day, threshold as int),
{
    let ghost sp = spans(ts@, threshold as int);
    let spans_v = split_sessions(ts, threshold);
    proof {
        lemma_spans_shape(ts@, threshold as int);
    }
    let mut sessions: Vec<UsageSession> = Vec::new();
    let mut total: i128 = 0;
    let mut k: usize = 0;
    while k < spans_v.len()
        invariant
            k <= spans_v@.len(),
            ts@.len() == local@.len(),
            ascending(ts@),
            forall|i: int|
                0 <= i < ts@.len() ==> -MAX_PING_SECS <= #[trigger] ts@[i] <= MAX_PING_SECS,
            forall|i: int|
                0 <= i < local@.len() ==> -(MAX_PING_SECS + SECONDS_PER_DAY) <= #[trigger] local@[i]
                    <= MAX_PING_SECS + SECONDS_PER_DAY,
            sp == spans(ts@, threshold as int),
            spans_v@.len() == sp.len(),
            is_partition(sp, ts@.len() as int),
            forall|j: int|
                0 <= j < spans_v@.len() ==> (#[trigger] spans_v@[j].0 as int, spans_v@[j].1 as int)
                    == sp[j],
            sessions@.len() == k,
            forall|j: int|
                0 <= j < k ==> session_matches(#[trigger] sessions@[j], ts@, local@, sp[j]),
            total == total_seconds(ts@, sp.take(k as int)),
            0 <= total <= k as int * 14_000_000_000_000,
        decreases spans_v@.len() - k,
    {
        let (a, b) = spans_v[k];
        assert(sp[k as int] == (a as int, b as int));
        assert(0 <= sp[k as int].0 <= sp[k as int].1 < ts@.len());
        assert(ts@[a as int] <= ts@[b as int]);
        let (_, start_secs) = split_local(local[a]);
        let (_, end_secs) = split_local(local[b]);
        let dur: i64 = ts[b] - ts[a];
        sessions.push(
            UsageSession {
                start: clock_label(start_secs),
                end: clock_label(end_secs),
                start_ts: ts[a],
                end_ts: ts[b],
                duration_minutes: minutes_of(dur),
            },
        );
        assert(sp.take(k + 1).drop_last() =~= sp.take(k as int));
        assert(k as int * 14_000_000_000_000 <= 0x1_0000_0000_0000_0000 * 14_000_000_000_000)
            by (nonlinear_arith)
            requires
                k < 0x1_0000_0000_0000_0000,
        ;
        total = total + dur as i128;
        k = k + 1;
    }
    assert(sp.take(k as int) =~= sp);
    let minutes: i128 = total / 60;
    let total_minutes: u32 = if minutes > u32::MAX as i128 {
        u32::MAX
    } else {
        minutes as u32
    };
    UsageDay { date: date_label(day), total_minutes, sessions }
}

/// `r` reports the pings `ts`, seen with local offsets `offsets`: one entry
/// per local day that holds a ping, in ascending order of days, each built
/// from that day's pings alone.
pub open spec fn usage_matches(r: Seq<UsageDay>, ts: Seq<i64>, offsets: Seq<i32>, thr: int) -> bool {
    let local = local_times(ts, offsets);
    let days = days_of(local);
    exists|keys: Seq<i64>|
        #[trigger] day_keys(keys, days) && r.len() == keys.len() && forall|j: int|
            0 <= j < keys.len() ==> day_matches(
                #[trigger] r[j],
                select(ts, days, keys[j]),
                select(local, days, keys[j]),
                keys[j],
                thr,
            )
}

pub open spec fn representable(t: i64) -> bool {
    -MAX_PING_SECS <= t <= MAX_PING_SECS
}

pub open spec fn valid_offsets(offsets: Seq<i32>) -> bool {
    forall|i: int| 0 <= i < offsets.len() ==> -86400 < #[trigger] offsets[i] < 86400
}

/// Groups ascending pings, each with the offset of local time from UTC at
/// that instant, into local calendar days and reconstructs each day's
/// sessions under the gap threshold `threshold`.
pub fn usage_days(ts: &Vec<i64>, offsets: &Vec<i32>, threshold: u32) -> (r: Vec<UsageDay>)
    requires
        ts@.len() == offsets@.len(),
        ascending(ts@),
        forall|i: int| 0 <= i < ts@.len() ==> representable(#[trigger] ts@[i]),
        valid_offsets(offsets@),
    ensures
        usage_matches(r@, ts@, offsets@, threshold as int),
{
    let mut local: Vec<i64> = Vec::new();
    let mut days: Vec<i64> = Vec::new();
    let mut i: usize = 0;
    while i < ts.len()
        invariant
            i <= ts@.len(),
            ts@.len() == offsets@.len(),
            forall|j: int| 0 <= j < ts@.len() ==> representable(#[trigger] ts@[j]),
            valid_offsets(offsets@),
            local@.len() == i,
            days@.len() == i,
            forall|j: int| 0 <= j < i ==> #[trigger] local@[j] == ts@[j] + offsets@[j],
            forall|j: int|
                0 <= j < i ==> #[trigger] days@[j] == local@[j] as int / SECONDS_PER_DAY as int,
            forall|j: int| 0 <= j < i ==> -MAX_LABEL_DAYS <= #[trigger] days@[j] <= MAX_LABEL_DAYS,
        decreases ts@.len() - i,
    {
        assert(representable(ts@[i as int]));
        assert(-86400 < offsets@[i as int] < 86400);
        let t: i64 = ts[i] + offsets[i] as i64;
        let (d, _) = split_local(t);
        local.push(t);
        days.push(d);
        i = i + 1;
    }
    let ghost lt = local_times(ts@, offsets@);
    assert(local@ =~= lt);
    assert(days@ =~= days_of(lt));
    let keys = distinct_days(&days);
    let mut r: Vec<UsageDay> = Vec::new();
    let mut k: usize = 0;
    while k < keys.len()
        invariant
            k <= keys@.len(),
            ts@.len() == offsets@.len(),
            ts@.len() == local@.len(),
            local@.len() == days@.len(),
            ascending(ts@),
            forall|j: int| 0 <= j < ts@.len() ==> representable(#[trigger] ts@[j]),
            local@ == lt,
            days@ == days_of(lt),
            forall|j: int| 0 <= j < local@.len() ==> #[trigger] local@[j] == ts@[j] + offsets@[j],
            valid_offsets(offsets@),
            day_keys(keys@, days@),
            forall|j: int|
                0 <= j < days@.len() ==> -MAX_LABEL_DAYS <= #[trigger] days@[j] <= MAX_LABEL_DAYS,
            r@.len() == k,
            forall|j: int|
                0 <= j < k ==> day_matches(
                    #[trigger] r@[j],
                    select(ts@, days@, keys@[j]),
                    select(local@, days@, keys@[j]),
                    keys@[j],
                    threshold as int,
                ),
        decreases keys@.len() - k,
    {
        let d = keys[k];
        assert(days@.contains(keys@[k as int]));
        let ghost w = choose|w: int| 0 <= w < days@.len() && days@[w] == d;
        assert(days@[w] == d);
        let day_ts = select_day(ts, &days, d);
        let day_local = select_day(&local, &days, d);
        proof {
            lemma_select_len(ts@, local@, days@, d);
            lemma_select_ascending(ts@, days@, d);
            lemma_select_bounds(ts@, days@, d, -MAX_PING_SECS as int, MAX_PING_SECS as int);
            assert forall|j: int| 0 <= j < local@.len() implies -(MAX_PING_SECS
                + SECONDS_PER_DAY) <= #[trigger] local@[j] <= MAX_PING_SECS + SECONDS_PER_DAY by {
                assert(representable(ts@[j]));
                assert(-86400 < offsets@[j] < 86400);
            }
            lemma_select_bounds(
                local@,
                days@,
                d,
                -(MAX_PING_SECS + SECONDS_PER_DAY) as int,
                (MAX_PING_SECS + SECONDS_PER_DAY) as int,
            );
        }
        assert(forall|j: int| 0 <= j < day_ts@.len() ==> -MAX_PING_SECS <= #[trigger] day_ts@[j] <= MAX_PING_SECS);
        r.push(build_day(&day_ts, &day_local, d, threshold));
        k = k + 1;
    }
    assert(day_keys(keys@, days_of(local_times(ts@, offsets@))));
    r
}

/// The pings of `s` that the calendar can label, in their order.
pub open spec fn representable_pings(s: Seq<i64>) -> Seq<i64>
    decreases s.len(),
{
    if s.len() == 0 {
        seq![]
    } else {
        let prev = representable_pings(s.drop_last());
        if representable(s.last()) {
            prev.push(s.last())
        } else {
            prev
        }
    }
}

proof fn lemma_representable_pings(s: Seq<i64>, hi: int)
    requires
        ascending(s),
        forall|i: int| 0 <= i < s.len() ==> #[trigger] s[i] <= hi,
    ensures
        ascending(representable_pings(s)),
        forall|k: int|
            0 <= k < representable_pings(s).len() ==> representable(
                #[trigger] representable_pings(s)[k],
            ) && representable_pings(s)[k] <= hi,
    decreases s.len(),
{
    if s.len() > 0 {
        let t = s.drop_last();
        assert(ascending(t));
        lemma_representable_pings(t, s.last() as int);
        let prev = representable_pings(t);
        let cur = representable_pings(s);
        assert forall|k: int| 0 <= k < cur.len() implies representable(#[trigger] cur[k])
            && cur[k] <= hi by {
            if k < prev.len() {
                assert(cur[k] == prev[k]);
            }
        }
    }
}

/// Reconstructs usage days from ascending pings under the gap threshold
/// `threshold`, reading the local offset of each ping from the host's time
/// zone.  Pings too far from the epoch to be labelled are left out.  Whatever
/// offsets the host gives, the report is the one that `usage_days` builds
/// from them.
pub fn usage_for_pings(pings: &Vec<i64>, threshold: u32) -> (r: Vec<UsageDay>)
    requires
        ascending(pings@),
    ensures
        exists|offsets: Seq<i32>|
            offsets.len() == representable_pings(pings@).len() && #[trigger] valid_offsets(
                offsets,
            ) && usage_matches(r@, representable_pings(pings@), offsets, threshold as int),
{
    let mut ts: Vec<i64> = Vec::new();
    let mut offsets: Vec<i32> = Vec::new();
    let mut i: usize = 0;
    while i < pings.len()
        invariant
            i <= pings@.len(),
            ts@ == representable_pings(pings@.take(i as int)),
            ts@.len() == offsets@.len(),
            valid_offsets(offsets@),
        decreases pings@.len() - i,
    {
        assert(pings@.take(i + 1).drop_last() =~= pings@.take(i as int));
        let p = pings[i];
        if -MAX_PING_SECS <= p && p <= MAX_PING_SECS {
            let off = local_offset(p);
            ts.push(p);
            offsets.push(off);
        }
        i = i + 1;
    }
    assert(pings@.take(i as int) =~= pings@);
    proof {
        lemma_representable_pings(pings@, i64::MAX as int);
    }
    let r = usage_days(&ts, &offsets, threshold);
    assert(valid_offsets(offsets@));
    r
}

/// The instants that a report over the last `day_count` days covers: from
/// `day_count + 1` days before `now` up to `now`.  There is none for a
/// negative count or a start before the earliest instant.
pub open spec fn usage_window_of(now: int, day_count: int) -> Option<(int, int)> {
    let start = now - (day_count + 1) * 86400;
    if day_count >= 0 && start >= i64::MIN {
        Some((start, now))
    } else {
        None
    }
}

/// The query window of a report over the last `day_count` days, ending at `now`.
pub fn usage_window(now: i64, day_count: i64) -> (r: Option<(i64, i64)>)
    ensures
        r is Some <==> usage_window_of(now as int, day_count as int) is Some,
        forall|start: i64, end: i64|
            r == Some((start, end)) ==> usage_window_of(now as int, day_count as int) == Some(
                (start as int, end as int),
            ),
{
    if day_count < 0 {
        return None;
    }
    let start: i128 = now as i128 - (day_count as i128 + 1) * 86400;
    if start < i64::MIN as i128 {
        return None;
    }
    Some((start as i64, now))
}

} // verus!
