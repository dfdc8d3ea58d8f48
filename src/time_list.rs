use std::collections::VecDeque;
use std::time::SystemTime;
use vstd::prelude::*;

verus! {

/// A span of whole hours.
#[derive(Clone, Copy, Debug, PartialEq, Eq, PartialOrd, Ord, Hash)]
pub struct CoarseDuration {
    /// 2^16 hours is 7.5 years.
    pub hours: u16,
}

/// A wall-clock time with a precision of one hour, counted in hours since the Unix epoch.
#[derive(Clone, Copy, Debug, PartialEq, Eq, PartialOrd, Ord, Hash)]
pub struct CoarseSystemTime {
    epoch_hours: u32,
}

#[verifier::external_type_specification]
#[verifier::external_body]
pub struct ExSystemTime(std::time::SystemTime);

/// Relies on `SystemTime::now`: reads the wall clock; nothing is known of the value.
#[verifier::external_body]
fn wall_clock() -> SystemTime {
    SystemTime::now()
}

/// Relies on `SystemTime::duration_since` against `UNIX_EPOCH`: `None` for a time before the epoch.
#[verifier::external_body]
fn since_epoch(t: &SystemTime) -> Option<std::time::Duration> {
    t.duration_since(SystemTime::UNIX_EPOCH).ok()
}

/// Relies on `Duration::as_secs`: the whole seconds of a duration.
#[verifier::external_body]
fn whole_seconds(d: &std::time::Duration) -> u64 {
    d.as_secs()
}

impl CoarseSystemTime {
    pub closed spec fn hours(self) -> int {
        self.epoch_hours as int
    }

    pub fn from_epoch_hours(epoch_hours: u32) -> (r: Self)
        ensures
            r.hours() == epoch_hours,
    {
        CoarseSystemTime { epoch_hours }
    }

    pub fn epoch_hours(&self) -> (r: u32)
        ensures
            r == self.hours(),
    {
        self.epoch_hours
    }

    /// The hour that a number of seconds since the epoch falls in; `None` past the range of `u32` hours.
    pub fn from_epoch_seconds(seconds: u64) -> (r: Option<Self>)
        ensures
            r.is_some() <==> seconds / 3600 <= u32::MAX,
            r.is_some() ==> r.unwrap().hours() == seconds / 3600,
    {
        let hours = seconds / 3600;
        if hours <= u32::MAX as u64 {
            Some(CoarseSystemTime { epoch_hours: hours as u32 })
        } else {
            None
        }
    }

    /// The current time with a precision of one hour; `None` when the clock is before the epoch or after
    /// the year 491936.
    pub fn now() -> (r: Option<Self>) {
        let t = wall_clock();
        match since_epoch(&t) {
            Some(d) => Self::from_epoch_seconds(whole_seconds(&d)),
            None => None,
        }
    }

    /// The time since a reference time, which may be up to one hour later, in which case the result is zero.
    pub fn time_since(self, other: Self) -> (r: CoarseDuration)
        requires
            other.hours() <= self.hours() + 1,
            self.hours() - other.hours() <= u16::MAX,
        ensures
            r.hours == if self.hours() >= other.hours() {
                self.hours() - other.hours()
            } else {
                0
            },
    {
        let hours: u16 = if self.epoch_hours < other.epoch_hours {
            0
        } else {
            (self.epoch_hours - other.epoch_hours) as u16
        };
        CoarseDuration { hours }
    }

    /// This time moved later by a duration; `None` past the range of `u32` hours.
    pub fn checked_add(self, duration: CoarseDuration) -> (r: Option<Self>)
        ensures
            r.is_some() <==> self.hours() + duration.hours <= u32::MAX,
            r.is_some() ==> r.unwrap().hours() == self.hours() + duration.hours,
    {
        match self.epoch_hours.checked_add(duration.hours as u32) {
            Some(epoch_hours) => Some(CoarseSystemTime { epoch_hours }),
            None => None,
        }
    }

    /// This time moved earlier by a duration; `None` before the epoch.
    pub fn checked_sub(self, duration: CoarseDuration) -> (r: Option<Self>)
        ensures
            r.is_some() <==> self.hours() >= duration.hours,
            r.is_some() ==> r.unwrap().hours() == self.hours() - duration.hours,
    {
        match self.epoch_hours.checked_sub(duration.hours as u32) {
            Some(epoch_hours) => Some(CoarseSystemTime { epoch_hours }),
            None => None,
        }
    }
}


struct Entry<T> {
    value: T,
    /// The hours since the previous entry, or zero for the first one.
    offset: CoarseDuration,
}

/// A queue of values tagged with non-decreasing times, each time kept as its distance from the previous
/// one. Values older than `limit` can be trimmed from the front.
pub struct TimeList<T> {
    values: VecDeque<Entry<T>>,
    head_tail: Option<(CoarseSystemTime, CoarseSystemTime)>,
    limit: CoarseDuration,
}

/// The sum of the offsets of the first `n` entries.
spec fn offset_sum<T>(s: Seq<Entry<T>>, n: int) -> int
    decreases n,
{
    if n <= 0 {
        0
    } else {
        offset_sum(s, n - 1) + s[n - 1].offset.hours
    }
}

proof fn lemma_offset_sum_prefix<T>(s: Seq<Entry<T>>, t: Seq<Entry<T>>, n: int)
    requires
        0 <= n <= s.len(),
        n <= t.len(),
        forall|j: int| 0 <= j < n ==> #[trigger] s[j].offset == t[j].offset,
    ensures
        offset_sum(s, n) == offset_sum(t, n),
    decreases n,
{
    if n > 0 {
        lemma_offset_sum_prefix(s, t, n - 1);
    }
}

/// Dropping the first entry and zeroing the offset of the new first one removes the old second offset
/// from every prefix sum.
proof fn lemma_offset_sum_shift<T>(s: Seq<Entry<T>>, t: Seq<Entry<T>>, n: int)
    requires
        1 <= n,
        n + 1 <= s.len(),
        t.len() == s.len() - 1,
        s[0].offset.hours == 0,
        t[0].offset.hours == 0,
        forall|j: int| 1 <= j < t.len() ==> #[trigger] t[j].offset == s[j + 1].offset,
    ensures
        offset_sum(t, n) + s[1].offset.hours == offset_sum(s, n + 1),
    decreases n,
{
    if n > 1 {
        lemma_offset_sum_shift(s, t, n - 1);
    } else {
        assert(offset_sum(s, 1) == offset_sum(s, 0) + s[0].offset.hours);
        assert(offset_sum(t, 0) == 0);
    }
}

proof fn lemma_offset_sum_monotone<T>(s: Seq<Entry<T>>, i: int, j: int)
    requires
        0 <= i <= j <= s.len(),
    ensures
        offset_sum(s, i) <= offset_sum(s, j),
    decreases j - i,
{
    if i < j {
        lemma_offset_sum_monotone(s, i, j - 1);
    }
}

impl<T> TimeList<T> {
    /// The list is empty exactly when it has no head and tail; its first entry has offset zero, and the head
    /// plus all offsets is the tail.
    pub closed spec fn wf(&self) -> bool {
        match self.head_tail {
            None => self.values@.len() == 0,
            Some((head, tail)) => {
                &&& self.values@.len() > 0
                &&& self.values@[0].offset.hours == 0
                &&& head.hours() + offset_sum(self.values@, self.values@.len() as int) == tail.hours()
            },
        }
    }

    /// The time of the first entry, as kept in the list.
    pub closed spec fn head(&self) -> int {
        self.head_tail.unwrap().0.hours()
    }

    /// The time of the last entry, as kept in the list.
    pub closed spec fn tail(&self) -> int {
        self.head_tail.unwrap().1.hours()
    }

    /// The offsets of the entries, in order.
    pub closed spec fn offsets(&self) -> Seq<int> {
        Seq::new(self.values@.len(), |i: int| self.values@[i].offset.hours as int)
    }

    /// The entries with their times, front first.
    pub closed spec fn view(&self) -> Seq<(T, int)> {
        Seq::new(
            self.values@.len(),
            |i: int| (self.values@[i].value, self.head() + offset_sum(self.values@, i + 1)),
        )
    }

    pub closed spec fn limit(&self) -> int {
        self.limit.hours as int
    }

    /// The time of the last entry.
    pub open spec fn last_time(&self) -> int {
        self.view().last().1
    }

    pub fn new(limit: CoarseDuration) -> (r: Self)
        ensures
            r.wf(),
            r.view() == Seq::<(T, int)>::empty(),
            r.limit() == limit.hours,
    {
        TimeList { values: VecDeque::new(), head_tail: None, limit }
    }

    pub fn is_empty(&self) -> (r: bool)
        requires
            self.wf(),
        ensures
            r == (self.view().len() == 0),
    {
        self.head_tail.is_none()
    }

    /// The time of the last entry, if any.
    pub fn last(&self) -> (r: Option<CoarseSystemTime>)
        requires
            self.wf(),
        ensures
            r.is_none() <==> self.view().len() == 0,
            r.is_some() ==> r.unwrap().hours() == self.last_time(),
    {
        proof {
            self.lemma_view_times();
        }
        match self.head_tail {
            None => None,
            Some((_, tail)) => Some(tail),
        }
    }

    /// In a well-formed list the head plus all offsets is the tail, the first offset is zero, the head
    /// and tail are the first and last times, and the times never decrease.
    pub proof fn lemma_view_times(&self)
        requires
            self.wf(),
        ensures
            self.view().len() == self.offsets().len(),
            self.view().len() > 0 ==> {
                &&& self.offsets()[0] == 0
                &&& self.head() + self.offsets().fold_left(0, |acc: int, o: int| acc + o) == self.tail()
                &&& self.view()[0].1 == self.head()
                &&& self.last_time() == self.tail()
            },
            forall|i: int, j: int|
                0 <= i <= j < self.view().len() ==> #[trigger] self.view()[i].1 <= #[trigger] self.view()[j].1,
            forall|i: int| 0 <= i < self.view().len() ==> 0 <= #[trigger] self.view()[i].1 <= u32::MAX,
    {
        let s = self.values@;
        assert forall|i: int| 0 <= i < self.view().len() implies 0 <= #[trigger] self.view()[i].1 <= u32::MAX by {
            lemma_offset_sum_monotone(s, 0, i + 1);
            lemma_offset_sum_monotone(s, i + 1, s.len() as int);
        }
        assert forall|i: int, j: int| 0 <= i <= j < self.view().len() implies #[trigger] self.view()[i].1
            <= #[trigger] self.view()[j].1 by {
            lemma_offset_sum_monotone(s, i + 1, j + 1);
        }
        if s.len() > 0 {
            assert(offset_sum(s, 1) == 0) by {
                assert(offset_sum(s, 1) == offset_sum(s, 0) + s[0].offset.hours);
            }
            self.lemma_fold_is_sum(s.len() as int);
        }
    }

    proof fn lemma_fold_is_sum(&self, n: int)
        requires
            0 <= n <= self.values@.len(),
        ensures
            self.offsets().take(n).fold_left(0, |acc: int, o: int| acc + o) == offset_sum(self.values@, n),
        decreases n,
    {
        let f = |acc: int, o: int| acc + o;
        if n > 0 {
            self.lemma_fold_is_sum(n - 1);
            let t = self.offsets().take(n);
            assert(t.drop_last() =~= self.offsets().take(n - 1));
        } else {
            assert(self.offsets().take(0) =~= Seq::<int>::empty());
        }
        if n == self.values@.len() {
            assert(self.offsets().take(n) =~= self.offsets());
        }
    }

    /// Adds a value to the end of the list, tagged with a time. The time is not checked against a current
    /// time, but it must not be more than an hour before the last time in the list; a time up to an hour
    /// earlier counts as that last time.
    pub fn push(&mut self, value: T, time: CoarseSystemTime)
        requires
            old(self).wf(),
            old(self).view().len() > 0 ==> {
                &&& time.hours() + 1 >= old(self).last_time()
                &&& time.hours() - old(self).last_time() <= u16::MAX
            },
        ensures
            final(self).wf(),
            final(self).limit() == old(self).limit(),
            final(self).view() == old(self).view().push(
                (
                    value,
                    if old(self).view().len() > 0 && time.hours() < old(self).last_time() {
                        old(self).last_time()
                    } else {
                        time.hours()
                    },
                ),
            ),
    {
        proof {
            self.lemma_view_times();
        }
        let ghost old_values = self.values@;
        let ghost old_view = self.view();
        let offset = match self.head_tail {
            None => {
                self.head_tail = Some((time, time));
                CoarseDuration { hours: 0 }
            },
            Some((head, tail)) => {
                let offset = time.time_since(tail);
                if time.epoch_hours > tail.epoch_hours {
                    self.head_tail = Some((head, time));
                }
                offset
            },
        };
        self.values.push_back(Entry { value, offset });
        proof {
            let s = self.values@;
            let n = old_values.len() as int;
            lemma_offset_sum_prefix(old_values, s, n);
            assert(offset_sum(s, n + 1) == offset_sum(old_values, n) + offset.hours);
            assert forall|i: int| 0 <= i < n implies #[trigger] self.view()[i] == old_view[i] by {
                lemma_offset_sum_prefix(old_values, s, i + 1);
            }
            assert(self.view() =~= old_view.push(self.view()[n]));
        }
    }

    /// A trimmer that removes, from the front, the values older than `limit` before `now`.
    pub fn trim(&self, now: CoarseSystemTime) -> (r: Trim)
        ensures
            r.now() == now.hours(),
            r.limit() == self.limit(),
    {
        Trim { now, limit: self.limit }
    }

    /// Removes every value older than `limit` before `now` and returns them with their times, oldest first.
    pub fn drain_expired(&mut self, now: CoarseSystemTime) -> (r: Vec<(T, CoarseSystemTime)>)
        requires
            old(self).wf(),
        ensures
            final(self).wf(),
            final(self).limit() == old(self).limit(),
            r@.len() <= old(self).view().len(),
            final(self).view() == old(self).view().skip(r@.len() as int),
            forall|i: int|
                0 <= i < r@.len() ==> {
                    &&& (#[trigger] r@[i]).0 == old(self).view()[i].0
                    &&& r@[i].1.hours() == old(self).view()[i].1
                    &&& r@[i].1.hours() + old(self).limit() < now.hours()
                },
            final(self).view().len() > 0 ==> final(self).view()[0].1 + old(self).limit() >= now.hours(),
    {
        let trim = self.trim(now);
        let mut out: Vec<(T, CoarseSystemTime)> = Vec::new();
        let ghost start = self.view();
        loop
            invariant
                self.wf(),
                self.limit() == old(self).limit(),
                start == old(self).view(),
                trim.now() == now.hours(),
                trim.limit() == self.limit(),
                out@.len() <= start.len(),
                self.view() == start.skip(out@.len() as int),
                forall|i: int|
                    0 <= i < out@.len() ==> {
                        &&& (#[trigger] out@[i]).0 == start[i].0
                        &&& out@[i].1.hours() == start[i].1
                        &&& out@[i].1.hours() + old(self).limit() < now.hours()
                    },
            decreases self.view().len(),
        {
            match trim.next(self) {
                Some(item) => {
                    out.push(item);
                },
                None => {
                    return out;
                },
            }
        }
    }
}

/// Removes values from the front of a `TimeList` while they are older than `limit` before `now`. It may be
/// stopped after any step; what it has not reached stays in the list.
pub struct Trim {
    now: CoarseSystemTime,
    limit: CoarseDuration,
}

impl Trim {
    pub closed spec fn now(&self) -> int {
        self.now.hours()
    }

    pub closed spec fn limit(&self) -> int {
        self.limit.hours as int
    }

    /// Whether a value at time `t` has expired.
    pub open spec fn expired(&self, t: int) -> bool {
        t + self.limit() < self.now()
    }

    /// Removes and returns the first value of the list, with its time, if it has expired.
    pub fn next<T>(&self, list: &mut TimeList<T>) -> (r: Option<(T, CoarseSystemTime)>)
        requires
            old(list).wf(),
        ensures
            final(list).wf(),
            final(list).limit() == old(list).limit(),
            match r {
                Some((value, time)) => {
                    &&& old(list).view().len() > 0
                    &&& self.expired(old(list).view()[0].1)
                    &&& value == old(list).view()[0].0
                    &&& time.hours() == old(list).view()[0].1
                    &&& final(list).view() == old(list).view().drop_first()
                },
                None => {
                    &&& old(list).view().len() > 0 ==> !self.expired(old(list).view()[0].1)
                    &&& final(list).view() == old(list).view()
                },
            },
    {
        proof {
            list.lemma_view_times();
        }
        let (head, tail) = match list.head_tail {
            None => {
                return None;
            },
            Some(pair) => pair,
        };
        if head.epoch_hours as u64 + self.limit.hours as u64 >= self.now.epoch_hours as u64 {
            return None;
        }
        let ghost old_values = list.values@;
        let ghost old_view = list.view();
        let trimmed = list.values.pop_front().unwrap();
        match list.values.pop_front() {
            Some(next) => {
                proof {
                    assert(next == old_values[1]);
                    lemma_offset_sum_monotone(old_values, 2, old_values.len() as int);
                    assert(offset_sum(old_values, 1) == offset_sum(old_values, 0) + old_values[0].offset.hours);
                    assert(offset_sum(old_values, 2) == offset_sum(old_values, 1) + old_values[1].offset.hours);
                    assert(head.hours() + offset_sum(old_values, 2) <= tail.hours());
                }
                let new_head = CoarseSystemTime {
                    epoch_hours: head.epoch_hours + next.offset.hours as u32,
                };
                list.values.push_front(Entry { value: next.value, offset: CoarseDuration { hours: 0 } });
                list.head_tail = Some((new_head, tail));
                proof {
                    let s = list.values@;
                    let n = s.len() as int;
                    lemma_offset_sum_shift(old_values, s, n);
                    assert forall|i: int| 0 <= i < n implies #[trigger] list.view()[i] == old_view.drop_first()[i] by {
                        lemma_offset_sum_shift(old_values, s, i + 1);
                    }
                    assert(list.view() =~= old_view.drop_first());
                }
            },
            None => {
                list.head_tail = None;
                proof {
                    assert(list.view() =~= old_view.drop_first());
                }
            },
        }
        proof {
            assert(offset_sum(old_values, 1) == offset_sum(old_values, 0) + old_values[0].offset.hours);
        }
        Some((trimmed.value, head))
    }
}

} // verus!
