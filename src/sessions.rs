use vstd::prelude::*;

verus! {

/// Every element is at most every later one.
pub open spec fn ascending(s: Seq<i64>) -> bool {
    forall|i: int, j: int| 0 <= i <= j < s.len() ==> s[i] <= s[j]
}

/// The sessions of the ping sequence `s` under gap threshold `thr`, as pairs
/// of indices (first ping, last ping): each ping whose gap to the one before
/// exceeds `thr` opens a new session, every other ping extends the current one.
pub open spec fn spans(s: Seq<i64>, thr: int) -> Seq<(int, int)>
    decreases s.len(),
{
    if s.len() == 0 {
        seq![]
    } else if s.len() == 1 {
        seq![(0int, 0int)]
    } else {
        let prev = spans(s.drop_last(), thr);
        let n = s.len() - 1;
        if s[n] - s[n - 1] > thr {
            prev.push((n, n))
        } else {
            prev.update(prev.len() - 1, (prev.last().0, n))
        }
    }
}

/// The sessions cut `s` into consecutive, non-empty index ranges that cover
/// it from first to last ping.
pub open spec fn is_partition(r: Seq<(int, int)>, n: int) -> bool {
    &&& (n == 0 <==> r.len() == 0)
    &&& n > 0 ==> r[0].0 == 0 && r.last().1 == n - 1
    &&& forall|k: int| 0 <= k < r.len() ==> 0 <= #[trigger] r[k].0 <= r[k].1 < n
    &&& forall|k: int| 0 <= k < r.len() - 1 ==> #[trigger] r[k + 1].0 == r[k].1 + 1
}

/// The sessions of any ping sequence partition its indices.
pub proof fn lemma_spans_shape(s: Seq<i64>, thr: int)
    ensures
        is_partition(spans(s, thr), s.len() as int),
    decreases s.len(),
{
    if s.len() > 1 {
        lemma_spans_shape(s.drop_last(), thr);
    }
}

/// Session reconstruction law: on an ascending ping sequence the sessions
/// partition the pings into consecutive runs, appear in chronological order
/// without overlap, every gap between two pings of one session is at most
/// the threshold, and every gap between two neighbouring sessions exceeds it.
pub proof fn lemma_sessions_separate(s: Seq<i64>, thr: int)
    requires
        ascending(s),
        thr >= 0,
    ensures
        is_partition(spans(s, thr), s.len() as int),
        forall|k: int, i: int|
            #![trigger spans(s, thr)[k], s[i]]
            0 <= k < spans(s, thr).len() && spans(s, thr)[k].0 <= i < spans(s, thr)[k].1
                ==> s[i + 1] - s[i] <= thr,
        forall|k: int|
            0 <= k < spans(s, thr).len() - 1 ==> s[spans(s, thr)[k + 1].0] - s[
                #[trigger] spans(s, thr)[k].1] > thr,
        forall|k: int|
            0 <= k < spans(s, thr).len() - 1 ==> s[spans(s, thr)[k].0] <= s[spans(s, thr)[k].1]
                < s[#[trigger] spans(s, thr)[k + 1].0],
    decreases s.len(),
{
    lemma_spans_shape(s, thr);
    if s.len() > 1 {
        let t = s.drop_last();
        let n = s.len() - 1;
        assert(ascending(t));
        lemma_sessions_separate(t, thr);
        lemma_spans_shape(t, thr);
        let p = spans(t, thr);
        let r = spans(s, thr);
        let last = p.len() - 1;
        assert(forall|i: int| 0 <= i < n ==> t[i] == s[i]);
        assert(p[last].1 == n - 1);
        if s[n] - s[n - 1] > thr {
            assert(r == p.push((n, n)));
            assert forall|k: int, i: int|
                #![trigger r[k], s[i]]
                0 <= k < r.len() && r[k].0 <= i < r[k].1 implies s[i + 1] - s[i] <= thr by {
                if k < p.len() {
                    assert(r[k] == p[k]);
                    assert(p[k].1 <= n - 1);
                    assert(t[i + 1] - t[i] <= thr);
                }
            }
            assert forall|k: int| 0 <= k < r.len() - 1 implies s[r[k + 1].0] - s[
                #[trigger] r[k].1] > thr && s[r[k].0] <= s[r[k].1] < s[r[k + 1].0] by {
                assert(r[k] == p[k]);
                if k < last {
                    assert(r[k + 1] == p[k + 1]);
                    assert(t[p[k + 1].0] - t[p[k].1] > thr);
                    assert(t[p[k].0] <= t[p[k].1] < t[p[k + 1].0]);
                } else {
                    assert(r[k + 1] == (n, n));
                }
            }
        } else {
            assert(r == p.update(last, (p[last].0, n)));
            assert forall|k: int, i: int|
                #![trigger r[k], s[i]]
                0 <= k < r.len() && r[k].0 <= i < r[k].1 implies s[i + 1] - s[i] <= thr by {
                if k < last {
                    assert(r[k] == p[k]);
                    assert(p[k].1 <= n - 1);
                    assert(t[i + 1] - t[i] <= thr);
                } else if i < n - 1 {
                    assert(p[last].0 <= i < p[last].1);
                    assert(t[i + 1] - t[i] <= thr);
                }
            }
            assert forall|k: int| 0 <= k < r.len() - 1 implies s[r[k + 1].0] - s[
                #[trigger] r[k].1] > thr && s[r[k].0] <= s[r[k].1] < s[r[k + 1].0] by {
                assert(r[k] == p[k]);
                assert(r[k + 1].0 == p[k + 1].0);
                assert(p[k + 1].0 <= n - 1);
                assert(t[p[k + 1].0] - t[p[k].1] > thr);
                assert(t[p[k].0] <= t[p[k].1] < t[p[k + 1].0]);
            }
        }
    }
}

/// Splits the pings into sessions, returning for each session the index of
/// its first and its last ping.
pub fn split_sessions(pings: &Vec<i64>, threshold: u32) -> (r: Vec<(usize, usize)>)
    ensures
        r@.len() == spans(pings@, threshold as int).len(),
        forall|k: int|
            0 <= k < r@.len() ==> (#[trigger] r@[k].0 as int, r@[k].1 as int) == spans(
                pings@,
                threshold as int,
            )[k],
{
    let mut r: Vec<(usize, usize)> = Vec::new();
    if pings.len() == 0 {
        return r;
    }
    let mut start: usize = 0;
    let mut i: usize = 1;
    while i < pings.len()
        invariant
            1 <= i <= pings.len(),
            start < i,
            spans(pings@.take(i as int), threshold as int).len() == r@.len() + 1,
            spans(pings@.take(i as int), threshold as int).last() == (start as int, i - 1),
            forall|k: int|
                0 <= k < r@.len() ==> (#[trigger] r@[k].0 as int, r@[k].1 as int) == spans(
                    pings@.take(i as int),
                    threshold as int,
                )[k],
        decreases pings.len() - i,
    {
        let ghost before = pings@.take(i as int);
        assert(pings@.take(i + 1).drop_last() =~= before);
        if (pings[i] as i128) - (pings[i - 1] as i128) > threshold as i128 {
            r.push((start, i - 1));
            start = i;
        }
        i = i + 1;
    }
    assert(pings@.take(i as int) =~= pings@);
    r.push((start, i - 1));
    r
}

} // verus!
