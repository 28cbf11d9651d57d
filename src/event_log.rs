use vstd::prelude::*;

verus! {

/// Every element is smaller than every later one.
pub open spec fn strictly_ascending(s: Seq<i64>) -> bool {
    forall|i: int, j: int| 0 <= i < j < s.len() ==> s[i] < s[j]
}

/// `s` with `t` added in its ordered place, unless `t` is already there.
pub open spec fn insert_sorted(s: Seq<i64>, t: i64) -> Seq<i64>
    decreases s.len(),
{
    if s.len() == 0 {
        seq![t]
    } else if t < s[0] {
        seq![t] + s
    } else if t == s[0] {
        s
    } else {
        seq![s[0]] + insert_sorted(s.drop_first(), t)
    }
}

/// The elements of `s` within `[start, end]`, in their order.
pub open spec fn window(s: Seq<i64>, start: i64, end: i64) -> Seq<i64>
    decreases s.len(),
{
    if s.len() == 0 {
        seq![]
    } else {
        let prev = window(s.drop_last(), start, end);
        if start <= s.last() <= end {
            prev.push(s.last())
        } else {
            prev
        }
    }
}

proof fn lemma_insert_at(s: Seq<i64>, t: i64, pos: int)
    requires
        strictly_ascending(s),
        0 <= pos <= s.len(),
        forall|j: int| 0 <= j < pos ==> s[j] < t,
        pos < s.len() ==> s[pos] >= t,
    ensures
        insert_sorted(s, t) == if pos < s.len() && s[pos] == t {
            s
        } else {
            s.insert(pos, t)
        },
    decreases pos,
{
    if pos > 0 {
        let rest = s.drop_first();
        assert(strictly_ascending(rest));
        lemma_insert_at(rest, t, pos - 1);
        if pos < s.len() && s[pos] == t {
            assert(seq![s[0]] + rest =~= s);
        } else {
            assert(seq![s[0]] + rest.insert(pos - 1, t) =~= s.insert(pos, t));
        }
    } else {
        if s.len() > 0 && s[0] != t {
            assert(seq![t] + s =~= s.insert(0, t));
        }
    }
}

proof fn lemma_insert_contains(s: Seq<i64>, t: i64)
    ensures
        insert_sorted(s, t).contains(t),
    decreases s.len(),
{
    if s.len() == 0 {
        assert(insert_sorted(s, t)[0] == t);
    } else if t < s[0] {
        assert(insert_sorted(s, t)[0] == t);
    } else if t == s[0] {
        assert(s[0] == t);
    } else {
        lemma_insert_contains(s.drop_first(), t);
        let w = choose|w: int|
            0 <= w < insert_sorted(s.drop_first(), t).len() && insert_sorted(s.drop_first(), t)[w]
                == t;
        assert(insert_sorted(s, t)[w + 1] == t);
    }
}

proof fn lemma_insert_present(s: Seq<i64>, t: i64)
    requires
        strictly_ascending(s),
        s.contains(t),
    ensures
        insert_sorted(s, t) == s,
    decreases s.len(),
{
    let rest = s.drop_first();
    if t > s[0] {
        assert(strictly_ascending(rest));
        let w = choose|w: int| 0 <= w < s.len() && s[w] == t;
        assert(w > 0);
        assert(rest[w - 1] == t);
        lemma_insert_present(rest, t);
        assert(seq![s[0]] + rest =~= s);
    } else if t < s[0] {
        let w = choose|w: int| 0 <= w < s.len() && s[w] == t;
        if w > 0 {
            assert(s[0] < s[w]);
        }
    }
}

/// The log of activity pings: each timestamp at most once, kept in order.
pub struct EventLog {
    pings: Vec<i64>,
}

impl View for EventLog {
    type V = Seq<i64>;

    closed spec fn view(&self) -> Seq<i64> {
        self.pings@
    }
}

impl EventLog {
    pub open spec fn wf(&self) -> bool {
        strictly_ascending(self@)
    }

    pub fn new() -> (r: Self)
        ensures
            r.wf(),
            r@ == Seq::<i64>::empty(),
    {
        EventLog { pings: Vec::new() }
    }

    /// Records a ping at `t`; a ping already recorded is left as it is.
    pub fn record(&mut self, t: i64)
        requires
            old(self).wf(),
        ensures
            final(self).wf(),
            final(self)@ == insert_sorted(old(self)@, t),
    {
        let mut pos: usize = 0;
        while pos < self.pings.len() && self.pings[pos] < t
            invariant
                pos <= self.pings@.len(),
                forall|j: int| 0 <= j < pos ==> self.pings@[j] < t,
            decreases self.pings@.len() - pos,
        {
            pos = pos + 1;
        }
        proof {
            lemma_insert_at(self.pings@, t, pos as int);
        }
        if pos < self.pings.len() && self.pings[pos] == t {
            return;
        }
        let ghost before = self.pings@;
        self.pings.insert(pos, t);
        assert forall|i: int, j: int| 0 <= i < j < self.pings@.len() implies self.pings@[i]
            < self.pings@[j] by {
            if j < pos {
            } else if i > pos {
                assert(self.pings@[i] == before[i - 1]);
                assert(self.pings@[j] == before[j - 1]);
            } else if i == pos {
                assert(self.pings@[j] == before[j - 1]);
                assert(before[pos as int] >= t);
            } else if j == pos {
            } else {
                assert(self.pings@[j] == before[j - 1]);
                assert(before[i] < before[pos as int]);
            }
        }
    }

    /// The recorded pings within `[start, end]`, ascending.
    pub fn query(&self, start: i64, end: i64) -> (r: Vec<i64>)
        ensures
            r@ == window(self@, start, end),
    {
        let mut r: Vec<i64> = Vec::new();
        let mut i: usize = 0;
        while i < self.pings.len()
            invariant
                i <= self.pings@.len(),
                r@ == window(self.pings@.take(i as int), start, end),
            decreases self.pings@.len() - i,
        {
            assert(self.pings@.take(i + 1).drop_last() =~= self.pings@.take(i as int));
            let p = self.pings[i];
            if start <= p && p <= end {
                r.push(p);
            }
            i = i + 1;
        }
        assert(self.pings@.take(i as int) =~= self.pings@);
        r
    }
}

/// Recording a timestamp a second time changes nothing: every query after
/// two records of `t` returns what it returns after one.
pub proof fn lemma_record_idempotent(s: Seq<i64>, t: i64, start: i64, end: i64)
    requires
        strictly_ascending(s),
    ensures
        insert_sorted(insert_sorted(s, t), t) == insert_sorted(s, t),
        window(insert_sorted(insert_sorted(s, t), t), start, end) == window(
            insert_sorted(s, t),
            start,
            end,
        ),
{
    lemma_insert_sorted_ascending(s, t, i64::MIN as int - 1);
    lemma_insert_contains(s, t);
    lemma_insert_present(insert_sorted(s, t), t);
}

proof fn lemma_insert_sorted_ascending(s: Seq<i64>, t: i64, lo: int)
    requires
        strictly_ascending(s),
        lo < t,
        forall|i: int| 0 <= i < s.len() ==> lo < #[trigger] s[i],
    ensures
        strictly_ascending(insert_sorted(s, t)),
        forall|k: int|
            0 <= k < insert_sorted(s, t).len() ==> lo < #[trigger] insert_sorted(s, t)[k],
    decreases s.len(),
{
    if s.len() > 0 && t > s[0] {
        let rest = s.drop_first();
        assert(strictly_ascending(rest));
        lemma_insert_sorted_ascending(rest, t, s[0] as int);
        let ins = insert_sorted(rest, t);
        assert(insert_sorted(s, t) == seq![s[0]] + ins);
        assert forall|i: int, j: int|
            0 <= i < j < insert_sorted(s, t).len() implies insert_sorted(s, t)[i] < insert_sorted(
            s,
            t,
        )[j] by {
            if i > 0 {
                assert(insert_sorted(s, t)[i] == ins[i - 1]);
            }
            assert(insert_sorted(s, t)[j] == ins[j - 1]);
        }
        assert forall|k: int| 0 <= k < insert_sorted(s, t).len() implies lo < #[trigger] insert_sorted(
            s,
            t,
        )[k] by {
            if k > 0 {
                assert(insert_sorted(s, t)[k] == ins[k - 1]);
            }
        }
    } else if s.len() > 0 && t < s[0] {
        assert forall|i: int, j: int|
            0 <= i < j < insert_sorted(s, t).len() implies insert_sorted(s, t)[i] < insert_sorted(
            s,
            t,
        )[j] by {
            assert(insert_sorted(s, t)[j] == s[j - 1]);
            if i > 0 {
                assert(insert_sorted(s, t)[i] == s[i - 1]);
            }
        }
        assert forall|k: int| 0 <= k < insert_sorted(s, t).len() implies lo < #[trigger] insert_sorted(
            s,
            t,
        )[k] by {
            if k > 0 {
                assert(insert_sorted(s, t)[k] == s[k - 1]);
            }
        }
    }
}

} // verus!
