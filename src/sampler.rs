use vstd::prelude::*;
use vstd::slice::slice_subrange;

verus! {

/// The span of the host's 32-bit input tick counter.
pub const TICK_WRAP: u64 = 0x1_0000_0000;

/// Milliseconds since the last input event, given the 64-bit tick count `now`
/// and the 32-bit tick count `last` of the last input.  The last input is
/// placed in the same 2^32 window as `now`, or in the window before when the
/// low word of `now` has already wrapped past it; a last input that would lie
/// before tick zero counts as no idle time at all.
pub open spec fn idle_from_ticks(now: int, last: int) -> int {
    let low = now % (TICK_WRAP as int);
    if low >= last {
        low - last
    } else if now >= TICK_WRAP as int {
        low + TICK_WRAP as int - last
    } else {
        0
    }
}

/// Rebuilds the 64-bit tick of the last input from its 32-bit value and
/// returns the time elapsed since then, in milliseconds.
pub fn idle_millis_from_ticks(now: u64, last_input: u32) -> (r: u64)
    ensures
        r == idle_from_ticks(now as int, last_input as int),
        r < TICK_WRAP,
{
    let low: u64 = now % TICK_WRAP;
    let window: u64 = now - low;
    let last: u64 = last_input as u64;
    if low >= last {
        low - last
    } else if window > 0 {
        let last_input_64: u64 = window - TICK_WRAP + last;
        now - last_input_64
    } else {
        0
    }
}

/// Idle time, in milliseconds, on a host that offers no input query: the
/// host is always taken to be in use.
pub fn get_idle_time() -> (r: u64)
    ensures
        r == 0,
{
    0
}

/// Media playback on a host that offers no playback query: never playing.
pub fn is_media_playing() -> (r: bool)
    ensures
        !r,
{
    false
}

/// Index of the first line break at or after `start`, or the length of `s`.
pub open spec fn line_end(s: Seq<u8>, start: int) -> int
    decreases s.len() - start,
{
    if start >= s.len() {
        s.len() as int
    } else if s[start] == 10 {
        start
    } else {
        line_end(s, start + 1)
    }
}

/// `pat` occurs in `s` starting at `i`.
pub open spec fn occurs_at(s: Seq<u8>, pat: Seq<u8>, i: int) -> bool {
    0 <= i && i + pat.len() <= s.len() && s.subrange(i, i + pat.len()) == pat
}

pub open spec fn has_part(s: Seq<u8>, pat: Seq<u8>) -> bool {
    exists|i: int| #[trigger] occurs_at(s, pat, i)
}

fn line_end_from(s: &[u8], start: usize) -> (r: usize)
    requires
        start <= s@.len(),
    ensures
        r == line_end(s@, start as int),
        start <= r <= s@.len(),
{
    let mut i: usize = start;
    while i < s.len() && s[i] != 10
        invariant
            start <= i <= s@.len(),
            line_end(s@, start as int) == line_end(s@, i as int),
        decreases s@.len() - i,
    {
        i = i + 1;
    }
    i
}

/// Whether `pat` occurs in `s[from..to]`.
fn has_part_in(s: &[u8], from: usize, to: usize, pat: &[u8]) -> (r: bool)
    requires
        from <= to <= s@.len(),
    ensures
        r == has_part(s@.subrange(from as int, to as int), pat@),
{
    let ghost line = s@.subrange(from as int, to as int);
    if pat.len() > to - from {
        assert forall|i: int| !occurs_at(line, pat@, i) by {}
        return false;
    }
    let mut i: usize = from;
    while i <= to - pat.len()
        invariant
            from <= i,
            to <= s@.len(),
            pat@.len() <= to - from,
            line == s@.subrange(from as int, to as int),
            forall|k: int| 0 <= k < i - from ==> !#[trigger] occurs_at(line, pat@, k),
        decreases to - i,
    {
        let mut j: usize = 0;
        while j < pat.len() && s[i + j] == pat[j]
            invariant
                j <= pat@.len(),
                i + pat@.len() <= to <= s@.len(),
                forall|m: int| 0 <= m < j ==> s@[i + m] == pat@[m],
            decreases pat@.len() - j,
        {
            j = j + 1;
        }
        if j == pat.len() {
            assert(line.subrange(i - from, i - from + pat@.len()) =~= pat@);
            assert(occurs_at(line, pat@, i - from));
            return true;
        }
        assert(!occurs_at(line, pat@, i - from)) by {
            if occurs_at(line, pat@, i - from) {
                assert(line.subrange(i - from, i - from + pat@.len())[j as int] == s@[i + j]);
            }
        }
        i = i + 1;
    }
    assert forall|k: int| !occurs_at(line, pat@, k) by {
        if 0 <= k < i - from {
        }
    }
    false
}

/// The part of `s` after its last `=`; all of `s` where it has none.
pub open spec fn after_last_eq(s: Seq<u8>) -> Seq<u8>
    decreases s.len(),
{
    if s.len() == 0 {
        s
    } else if s.last() == 61 {
        seq![]
    } else {
        after_last_eq(s.drop_last()).push(s.last())
    }
}

pub open spec fn is_space(b: u8) -> bool {
    b == 32 || (9 <= b <= 13)
}

pub open spec fn trim_start(s: Seq<u8>) -> Seq<u8>
    decreases s.len(),
{
    if s.len() > 0 && is_space(s[0]) {
        trim_start(s.drop_first())
    } else {
        s
    }
}

pub open spec fn trim_end(s: Seq<u8>) -> Seq<u8>
    decreases s.len(),
{
    if s.len() > 0 && is_space(s.last()) {
        trim_end(s.drop_last())
    } else {
        s
    }
}

pub open spec fn is_digit(b: u8) -> bool {
    48 <= b <= 57
}

/// The number that the decimal digits `d` spell.
pub open spec fn digits_value(d: Seq<u8>) -> nat
    decreases d.len(),
{
    if d.len() == 0 {
        0
    } else {
        digits_value(d.drop_last()) * 10 + (d.last() - 48) as nat
    }
}

/// The digits of `s`, after an optional leading `+`.
pub open spec fn sign_stripped(s: Seq<u8>) -> Seq<u8> {
    if s.len() > 0 && s[0] == 43 {
        s.drop_first()
    } else {
        s
    }
}

pub open spec fn all_digits(d: Seq<u8>) -> bool {
    forall|i: int| 0 <= i < d.len() ==> is_digit(#[trigger] d[i])
}

/// An unsigned decimal with an optional leading `+`, as Rust reads a `u64`.
pub open spec fn parse_u64(s: Seq<u8>) -> Option<u64> {
    let d = sign_stripped(s);
    if d.len() > 0 && all_digits(d) && digits_value(d) <= u64::MAX {
        Some(digits_value(d) as u64)
    } else {
        None
    }
}

fn after_last_eq_of(s: &[u8]) -> (r: &[u8])
    ensures
        r@ == after_last_eq(s@),
{
    let mut i: usize = s.len();
    assert(s@.subrange(0, s@.len() as int) =~= s@);
    assert(s@.subrange(s@.len() as int, s@.len() as int) =~= seq![]);
    assert(after_last_eq(s@) =~= after_last_eq(s@) + seq![]);
    while i > 0 && s[i - 1] != 61
        invariant
            i <= s@.len(),
            after_last_eq(s@) == after_last_eq(s@.subrange(0, i as int)) + s@.subrange(
                i as int,
                s@.len() as int,
            ),
        decreases i,
    {
        let ghost pre = s@.subrange(0, i as int);
        assert(pre.drop_last() =~= s@.subrange(0, i - 1));
        assert(after_last_eq(pre) == after_last_eq(pre.drop_last()).push(pre.last()));
        assert(after_last_eq(pre.drop_last()).push(pre.last()) + s@.subrange(i as int, s@.len() as int)
            =~= after_last_eq(pre.drop_last()) + s@.subrange(i - 1, s@.len() as int));
        i = i - 1;
    }
    assert(s@.subrange(0, s@.len() as int) =~= s@);
    assert(after_last_eq(s@.subrange(0, i as int)) =~= seq![]);
    assert(after_last_eq(s@) =~= s@.subrange(i as int, s@.len() as int));
    slice_subrange(s, i, s.len())
}

fn trim_space(s: &[u8]) -> (r: &[u8])
    ensures
        r@ == trim_end(trim_start(s@)),
{
    let mut a: usize = 0;
    assert(s@.subrange(0, s@.len() as int) =~= s@);
    while a < s.len() && (s[a] == 32 || (9 <= s[a] && s[a] <= 13))
        invariant
            a <= s@.len(),
            trim_start(s@) == trim_start(s@.subrange(a as int, s@.len() as int)),
        decreases s@.len() - a,
    {
        assert(s@.subrange(a as int, s@.len() as int).drop_first() =~= s@.subrange(
            a + 1,
            s@.len() as int,
        ));
        a = a + 1;
    }
    let mut b: usize = s.len();
    while b > a && (s[b - 1] == 32 || (9 <= s[b - 1] && s[b - 1] <= 13))
        invariant
            a <= b <= s@.len(),
            trim_start(s@) == s@.subrange(a as int, s@.len() as int),
            trim_end(trim_start(s@)) == trim_end(s@.subrange(a as int, b as int)),
        decreases b,
    {
        assert(s@.subrange(a as int, b as int).drop_last() =~= s@.subrange(a as int, b - 1));
        b = b - 1;
    }
    slice_subrange(s, a, b)
}

proof fn lemma_digits_prefix(d: Seq<u8>, k: int)
    requires
        0 <= k <= d.len(),
    ensures
        digits_value(d.take(k)) <= digits_value(d),
    decreases d.len(),
{
    if k < d.len() {
        lemma_digits_prefix(d.drop_last(), k);
        assert(d.drop_last().take(k) =~= d.take(k));
    } else {
        assert(d.take(k) =~= d);
    }
}

fn parse_u64_of(s: &[u8]) -> (r: Option<u64>)
    ensures
        r == parse_u64(s@),
{
    let start: usize = if s.len() > 0 && s[0] == 43 {
        1
    } else {
        0
    };
    let ghost d = sign_stripped(s@);
    assert(d =~= s@.subrange(start as int, s@.len() as int));
    if start == s.len() {
        return None;
    }
    let mut acc: u64 = 0;
    let mut i: usize = start;
    while i < s.len()
        invariant
            start <= i <= s@.len(),
            d == s@.subrange(start as int, s@.len() as int),
            d == sign_stripped(s@),
            forall|m: int| 0 <= m < i - start ==> is_digit(#[trigger] d[m]),
            acc as nat == digits_value(d.take(i - start)),
        decreases s@.len() - i,
    {
        let c = s[i];
        if c < 48 || c > 57 {
            assert(!is_digit(d[i - start]));
            assert(!all_digits(d));
            return None;
        }
        let digit: u64 = (c - 48) as u64;
        assert(d.take(i - start + 1).drop_last() =~= d.take(i - start));
        if acc > (u64::MAX - digit) / 10 {
            proof {
                lemma_digits_prefix(d, i - start + 1);
                assert(d.take(i - start + 1).last() == c);
                assert(acc * 10 + digit > u64::MAX) by (nonlinear_arith)
                    requires
                        acc > (u64::MAX - digit) / 10,
                        digit <= 9,
                ;
            }
            return None;
        }
        acc = acc * 10 + digit;
        i = i + 1;
    }
    assert(d.take(i - start) =~= d);
    Some(acc)
}

/// The field name of the idle time in the HID system's registry entry.
pub open spec fn hid_idle_field() -> Seq<u8> {
    seq![72u8, 73, 68, 73, 100, 108, 101, 84, 105, 109, 101]
}

/// The power assertion that playing media holds while it keeps the display on.
pub open spec fn display_sleep_assertion() -> Seq<u8> {
    seq![80u8, 114, 101, 118, 101, 110, 116, 85, 115, 101, 114, 73, 100, 108, 101, 68, 105, 115, 112, 108, 97, 121, 83, 108, 101, 101, 112]
}

fn hid_idle_field_bytes() -> (r: Vec<u8>)
    ensures
        r@ == hid_idle_field(),
{
    let r: Vec<u8> = vec![72u8, 73, 68, 73, 100, 108, 101, 84, 105, 109, 101];
    assert(r@ =~= hid_idle_field());
    r
}

fn display_sleep_assertion_bytes() -> (r: Vec<u8>)
    ensures
        r@ == display_sleep_assertion(),
{
    let r: Vec<u8> = vec![80u8, 114, 101, 118, 101, 110, 116, 85, 115, 101, 114, 73, 100, 108, 101, 68, 105, 115, 112, 108, 97, 121, 83, 108, 101, 101, 112];
    assert(r@ =~= display_sleep_assertion());
    r
}

/// The idle time, in nanoseconds, that one registry line reports: the
/// number after the line's last `=`, on a line that names the idle field.
pub open spec fn hid_line_value(line: Seq<u8>) -> Option<u64> {
    if has_part(line, hid_idle_field()) {
        parse_u64(trim_end(trim_start(after_last_eq(line))))
    } else {
        None
    }
}

/// The first idle time reported by a line that starts at or after `start`.
pub open spec fn hid_value_from(s: Seq<u8>, start: int) -> Option<u64>
    decreases s.len() - start,
{
    if start > s.len() {
        None
    } else {
        let e = line_end(s, start);
        match hid_line_value(s.subrange(start, e)) {
            Some(v) => Some(v),
            None => if start <= e < s.len() {
                hid_value_from(s, e + 1)
            } else {
                None
            },
        }
    }
}

/// Idle milliseconds that a dump of the HID system's registry entry reports:
/// the first line that names the idle field and ends in a number of
/// nanoseconds decides; a dump without one reports no idle time.
pub open spec fn hid_idle_millis_of(dump: Seq<u8>) -> u64 {
    match hid_value_from(dump, 0) {
        Some(v) => (v / 1_000_000) as u64,
        None => 0,
    }
}

/// A line of the power-assertion dump shows playback when it names the
/// display-sleep assertion and holds the flag `1`.
pub open spec fn playback_line(line: Seq<u8>) -> bool {
    has_part(line, display_sleep_assertion()) && has_part(line, seq![49u8])
}

pub open spec fn playback_from(s: Seq<u8>, start: int) -> bool
    decreases s.len() - start,
{
    if start > s.len() {
        false
    } else {
        let e = line_end(s, start);
        playback_line(s.subrange(start, e)) || (start <= e < s.len() && playback_from(s, e + 1))
    }
}

/// Reads the idle time from a dump of the HID system's registry entry.
pub fn hid_idle_millis(dump: &[u8]) -> (r: u64)
    ensures
        r == hid_idle_millis_of(dump@),
{
    let field = hid_idle_field_bytes();
    let mut start: usize = 0;
    loop
        invariant
            start <= dump@.len(),
            field@ == hid_idle_field(),
            hid_value_from(dump@, 0) == hid_value_from(dump@, start as int),
        decreases dump@.len() - start,
    {
        let e = line_end_from(dump, start);
        if has_part_in(dump, start, e, field.as_slice()) {
            let line = slice_subrange(dump, start, e);
            let value = parse_u64_of(trim_space(after_last_eq_of(line)));
            if let Some(v) = value {
                return v / 1_000_000;
            }
        }
        if e >= dump.len() {
            return 0;
        }
        start = e + 1;
    }
}

/// Whether a dump of the power assertions shows media playback.
pub fn playback_asserted(dump: &[u8]) -> (r: bool)
    ensures
        r == playback_from(dump@, 0),
{
    let marker = display_sleep_assertion_bytes();
    let one: Vec<u8> = vec![49u8];
    let mut start: usize = 0;
    loop
        invariant
            start <= dump@.len(),
            marker@ == display_sleep_assertion(),
            one@ == seq![49u8],
            playback_from(dump@, 0) == playback_from(dump@, start as int),
        decreases dump@.len() - start,
    {
        let e = line_end_from(dump, start);
        if has_part_in(dump, start, e, marker.as_slice()) && has_part_in(dump, start, e, one.as_slice()) {
            return true;
        }
        if e >= dump.len() {
            return false;
        }
        start = e + 1;
    }
}

} // verus!
