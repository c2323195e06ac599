//! How likely a component is to stay as it is.
//!
//! Package updates over a large enough period generally follow a Poisson
//! distribution, once high-activity event-driven periods are filtered out. The
//! probability of no update over a period is then a function of the rate of
//! updates; this module finds the rate.
use vstd::prelude::*;

use crate::lists;

verus! {

/// Seconds per day.
pub const SECS_PER_DAY: u64 = 60 * 60 * 24;

/// Maximum lookback period in days for changelog analysis.
pub const STABILITY_LOOKBACK_DAYS: u64 = 365;

/// What the probability that a component does not change over a period rests on.
#[derive(Debug, Clone, Copy, PartialEq, Eq, Structural)]
pub enum Stability {
    /// The component is assumed to change: the probability is zero.
    Unstable,
    /// There were no changes in the past year: the probability is that of a very
    /// stable component.
    Stable,
    /// The component changes once in so many days on average.
    Interval { days: u64 },
    /// The component changed `count` times in the last `span_secs` seconds.
    Changes { count: u64, span_secs: u64 },
}

/// The beginning of the lookback period.
pub open spec fn lookback_start(now: u64) -> u64 {
    if now >= STABILITY_LOOKBACK_DAYS * SECS_PER_DAY {
        (now - STABILITY_LOOKBACK_DAYS * SECS_PER_DAY) as u64
    } else {
        0
    }
}

pub open spec fn is_since(start: u64) -> spec_fn(u64) -> bool {
    |t: u64| t >= start
}

/// The changes in the lookback period.
pub open spec fn relevant_changes(times: Seq<u64>, now: u64) -> Seq<u64> {
    times.filter(is_since(lookback_start(now)))
}

pub open spec fn day(t: u64) -> int {
    t as int / SECS_PER_DAY as int
}

/// The number of changes when those of one day that follow each other count once.
pub open spec fn day_runs(times: Seq<u64>) -> nat
    decreases times.len(),
{
    if times.len() == 0 {
        0
    } else if times.len() == 1 {
        1
    } else if day(times.last()) == day(times[times.len() - 2]) {
        day_runs(times.drop_last())
    } else {
        day_runs(times.drop_last()) + 1
    }
}

/// The smallest of the times.
pub open spec fn oldest(times: Seq<u64>) -> u64
    decreases times.len(),
{
    if times.len() <= 1 {
        times[0]
    } else if times.last() < oldest(times.drop_last()) {
        times.last()
    } else {
        oldest(times.drop_last())
    }
}

/// What the probability rests on, given the times of the changes.
pub open spec fn stability_of(times: Seq<u64>, buildtime: u64, now: u64) -> Stability {
    let relevant = relevant_changes(times, now);
    let count = if times.len() == 0 {
        if buildtime >= lookback_start(now) {
            1
        } else {
            0
        }
    } else {
        day_runs(relevant)
    };
    let first = if relevant.len() == 0 {
        buildtime
    } else {
        oldest(relevant)
    };
    let span = if now >= first {
        now - first
    } else {
        0
    };
    if count == 0 {
        Stability::Stable
    } else if span < SECS_PER_DAY {
        Stability::Unstable
    } else {
        Stability::Changes { count: count as u64, span_secs: span as u64 }
    }
}

/// Calculates stability from changelog timestamps and build time.
///
/// The lookback period is limited to [`STABILITY_LOOKBACK_DAYS`]. If there are no
/// changelog entries, the build time is used as a single data point. Entries are
/// binned by days: multiple releases within a single day more likely indicate a
/// temporary packaging issue than a greater update frequency. A component whose
/// oldest change is less than a day old is assumed to be unstable.
///
/// Changelog timestamps are assumed to be sorted (ascending or descending order is
/// irrelevant); if this is not the case, out-of-order entries might not be
/// deduplicated, potentially overestimating update frequency.
pub fn calculate_stability(changelog_times: &[u64], buildtime: u64, now: u64) -> (r: Stability)
    ensures
        r == stability_of(changelog_times@, buildtime, now),
{
    let start: u64 = now.saturating_sub(STABILITY_LOOKBACK_DAYS * SECS_PER_DAY);
    let ghost times = changelog_times@;
    assert(start == lookback_start(now));
    let mut count: u64 = 0;
    let mut prev_day: Option<u64> = None;
    let mut first: Option<u64> = None;
    let mut i: usize = 0;
    proof {
        reveal(Seq::filter);
        assert(times.take(0) =~= Seq::<u64>::empty());
        assert(relevant_changes(times.take(0), now) =~= Seq::<u64>::empty());
    }
    while i < changelog_times.len()
        invariant
            i <= changelog_times@.len(),
            times == changelog_times@,
            start == lookback_start(now),
            count <= i,
            count == day_runs(relevant_changes(times.take(i as int), now)),
            match prev_day {
                Some(d) => relevant_changes(times.take(i as int), now).len() > 0 && d == day(
                    relevant_changes(times.take(i as int), now).last(),
                ),
                None => relevant_changes(times.take(i as int), now).len() == 0,
            },
            match first {
                Some(t) => relevant_changes(times.take(i as int), now).len() > 0 && t == oldest(
                    relevant_changes(times.take(i as int), now),
                ),
                None => relevant_changes(times.take(i as int), now).len() == 0,
            },
        decreases changelog_times@.len() - i,
    {
        let t: u64 = changelog_times[i];
        let ghost seen = relevant_changes(times.take(i as int), now);
        let ghost next = relevant_changes(times.take(i + 1), now);
        proof {
            reveal(Seq::filter);
            assert(times.take(i + 1).drop_last() =~= times.take(i as int));
        }
        if t >= start {
            let d: u64 = t / SECS_PER_DAY;
            proof {
                assert(is_since(start)(t));
                assert(next =~= seen.push(t));
                assert(next.drop_last() =~= seen);
            }
            let same_day: bool = match prev_day {
                Some(p) => p == d,
                None => false,
            };
            if !same_day {
                count += 1;
                prev_day = Some(d);
            }
            first = match first {
                Some(f) => Some(if t < f { t } else { f }),
                None => Some(t),
            };
        } else {
            assert(!is_since(start)(t));
        }
        i += 1;
    }
    assert(times.take(i as int) =~= times);
    if changelog_times.len() == 0 && buildtime >= start {
        count = 1;
    }
    if count == 0 {
        return Stability::Stable;
    }
    let since: u64 = match first {
        Some(f) => f,
        None => buildtime,
    };
    let span_secs: u64 = now.saturating_sub(since);
    if span_secs < SECS_PER_DAY {
        return Stability::Unstable;
    }
    Stability::Changes { count, span_secs }
}

proof fn lemma_filter_reverse(s: Seq<u64>, pred: spec_fn(u64) -> bool)
    ensures
        s.reverse().filter(pred) == s.filter(pred).reverse(),
    decreases s.len(),
{
    reveal_with_fuel(Seq::filter, 2);
    if s.len() > 0 {
        let front = s.drop_last();
        let last = seq![s.last()];
        lemma_filter_reverse(front, pred);
        assert(s.reverse() =~= last + front.reverse());
        Seq::filter_distributes_over_add(last, front.reverse(), pred);
        assert(last.drop_last() =~= Seq::<u64>::empty());
        assert(last.filter(pred) =~= if pred(s.last()) {
            last
        } else {
            Seq::<u64>::empty()
        });
        assert(s.filter(pred).reverse() =~= last.filter(pred) + front.filter(pred).reverse());
    } else {
        assert(s.reverse() =~= s);
        assert(s.filter(pred).reverse() =~= s.filter(pred));
    }
}

proof fn lemma_day_runs_front(s: Seq<u64>)
    requires
        s.len() >= 2,
    ensures
        day_runs(s) == day_runs(s.drop_first()) + if day(s[0]) == day(s[1]) {
            0nat
        } else {
            1nat
        },
    decreases s.len(),
{
    let rest = s.drop_first();
    if s.len() == 2 {
        assert(s.drop_last().len() == 1);
        assert(day_runs(s.drop_last()) == 1);
        assert(day_runs(rest) == 1);
    } else {
        lemma_day_runs_front(s.drop_last());
        assert(s.drop_last().drop_first() =~= rest.drop_last());
        assert(rest.last() == s.last());
        assert(rest[rest.len() - 2] == s[s.len() - 2]);
    }
}

proof fn lemma_day_runs_reverse(s: Seq<u64>)
    ensures
        day_runs(s.reverse()) == day_runs(s),
    decreases s.len(),
{
    if s.len() >= 2 {
        lemma_day_runs_front(s);
        lemma_day_runs_reverse(s.drop_first());
        let r = s.reverse();
        assert(r.drop_last() =~= s.drop_first().reverse());
        assert(r.last() == s[0]);
        assert(r[r.len() - 2] == s[1]);
    }
}

/// The oldest time is one of the times, and none is smaller.
pub proof fn lemma_oldest(s: Seq<u64>)
    requires
        s.len() > 0,
    ensures
        s.contains(oldest(s)),
        forall|i: int| 0 <= i < s.len() ==> oldest(s) <= #[trigger] s[i],
    decreases s.len(),
{
    if s.len() > 1 {
        let front = s.drop_last();
        lemma_oldest(front);
        let k = choose|k: int| 0 <= k < front.len() && front[k] == oldest(front);
        assert(s[k] == oldest(front));
        assert(s.last() == s[s.len() - 1]);
        assert forall|i: int| 0 <= i < s.len() implies oldest(s) <= #[trigger] s[i] by {
            if i < front.len() {
                assert(front[i] == s[i]);
            }
        }
    } else {
        assert(s[0] == oldest(s));
    }
}

/// The build time is irrelevant where there are changelog entries.
pub proof fn lemma_buildtime_irrelevant(times: Seq<u64>, a: u64, b: u64, now: u64)
    requires
        times.len() > 0,
    ensures
        stability_of(times, a, now) == stability_of(times, b, now),
{
}

/// Whether the changelog is in ascending or descending order is irrelevant: the
/// reverse of a changelog gives the same.
pub proof fn lemma_stability_reverse(times: Seq<u64>, buildtime: u64, now: u64)
    ensures
        stability_of(times.reverse(), buildtime, now) == stability_of(times, buildtime, now),
{
    let pred = is_since(lookback_start(now));
    lemma_filter_reverse(times, pred);
    let relevant = relevant_changes(times, now);
    lemma_day_runs_reverse(relevant);
    if relevant.len() > 0 {
        let back = relevant.reverse();
        lemma_oldest(relevant);
        lemma_oldest(back);
        let i = choose|i: int| 0 <= i < relevant.len() && relevant[i] == oldest(relevant);
        let j = choose|j: int| 0 <= j < back.len() && back[j] == oldest(back);
        assert(back[relevant.len() - 1 - i] == relevant[i]);
        assert(back[j] == relevant[relevant.len() - 1 - j]);
    }
}

/// The days on which there were changes.
pub open spec fn days_of(times: Seq<u64>) -> Set<int> {
    times.map_values(|t: u64| day(t)).to_set()
}

/// In a sorted changelog all the changes of a day count once: the number of
/// changes is the number of days with changes.
pub proof fn lemma_sorted_days(times: Seq<u64>)
    requires
        forall|i: int, j: int| 0 <= i <= j < times.len() ==> times[i] <= times[j],
    ensures
        day_runs(times) == days_of(times).len(),
        days_of(times).finite(),
    decreases times.len(),
{
    let f = |t: u64| day(t);
    broadcast use vstd::seq_lib::seq_to_set_is_finite;

    if times.len() == 0 {
        assert(days_of(times) =~= Set::<int>::empty());
    } else {
        let front = times.drop_last();
        let last = times.last();
        assert forall|i: int, j: int| 0 <= i <= j < front.len() implies front[i] <= front[j] by {
            assert(front[i] == times[i]);
            assert(front[j] == times[j]);
        }
        lemma_sorted_days(front);
        assert(times =~= front.push(last));
        assert(times.map_values(f) =~= front.map_values(f).push(day(last)));
        front.map_values(f).lemma_push_to_set_commute(day(last));
        assert(days_of(times) =~= days_of(front).insert(day(last)));
        if front.len() == 0 {
            assert(!days_of(front).contains(day(last)));
        } else {
            let prev = times[times.len() - 2];
            assert(front.map_values(f)[front.len() - 1] == day(prev));
            if day(last) != day(prev) {
                assert forall|k: int| 0 <= k < front.len() implies #[trigger] front.map_values(
                    f,
                )[k] != day(last) by {
                    assert(times[k] <= prev && prev <= last);
                    assert(day(times[k]) <= day(prev) <= day(last)) by {
                        lemma_day_monotone(times[k], prev);
                        lemma_day_monotone(prev, last);
                    }
                }
                assert(!days_of(front).contains(day(last)));
            } else {
                assert(days_of(front).contains(day(last)));
            }
        }
    }
}

proof fn lemma_day_monotone(a: u64, b: u64)
    requires
        a <= b,
    ensures
        day(a) <= day(b),
{
    vstd::arithmetic::div_mod::lemma_div_is_ordered(a as int, b as int, SECS_PER_DAY as int);
}

/// The times that count: those of the changelog, or the build time where it is empty.
pub open spec fn times_that_count(times: Seq<u64>, buildtime: u64) -> Seq<u64> {
    if times.len() == 0 {
        seq![buildtime]
    } else {
        times
    }
}

proof fn lemma_relevant(times: Seq<u64>, now: u64, t: u64)
    ensures
        relevant_changes(times, now).contains(t) <==> times.contains(t) && t + 31_536_000 >= now,
    decreases times.len(),
{
    reveal(Seq::filter);
    assert(STABILITY_LOOKBACK_DAYS * SECS_PER_DAY == 31_536_000);
    let pred = is_since(lookback_start(now));
    assert(pred(t) <==> t + 31_536_000 >= now);
    if times.len() > 0 {
        let front = times.drop_last();
        lemma_relevant(front, now, t);
        assert(front.push(times.last()) =~= times);
        lists::lemma_push_contains(front, times.last());
        lists::lemma_push_contains(front.filter(pred), times.last());
        assert(front.push(times.last()).contains(t) <==> t == times.last() || front.contains(t));
        assert(front.filter(pred).push(times.last()).contains(t) <==> t == times.last()
            || front.filter(pred).contains(t));
    } else {
        assert(relevant_changes(times, now) =~= Seq::<u64>::empty());
    }
}

proof fn lemma_day_runs_bounds(s: Seq<u64>)
    ensures
        day_runs(s) <= s.len(),
        s.len() > 0 ==> day_runs(s) >= 1,
    decreases s.len(),
{
    if s.len() > 1 {
        lemma_day_runs_bounds(s.drop_last());
    }
}

/// What the answers mean, with a year of 31,536,000 seconds and a day of 86,400. A
/// component is very stable if and only if no time is of the past year; it is unstable if
/// and only if there is one and the oldest such time is less than a day ago; otherwise
/// the span is the time since the oldest one.
pub proof fn lemma_stability_means(times: Seq<u64>, buildtime: u64, now: u64)
    requires
        times.len() <= u64::MAX,
    ensures
        ({
            let all = times_that_count(times, buildtime);
            match stability_of(times, buildtime, now) {
                Stability::Stable => forall|t: u64| #[trigger]
                    all.contains(t) ==> t + 31_536_000 < now,
                Stability::Unstable => {
                    &&& exists|t: u64| #[trigger] all.contains(t) && t + 31_536_000 >= now
                    &&& forall|t: u64| #[trigger]
                        all.contains(t) && t + 31_536_000 >= now ==> t + 86_400 > now
                },
                Stability::Changes { count, span_secs } => {
                    &&& exists|t: u64| #[trigger]
                        all.contains(t) && t + 31_536_000 >= now && t + span_secs == now
                    &&& forall|t: u64| #[trigger]
                        all.contains(t) && t + 31_536_000 >= now ==> t + span_secs >= now
                    &&& span_secs >= 86_400
                    &&& 1 <= count <= all.len()
                },
                Stability::Interval { .. } => false,
            }
        }),
{
    let all = times_that_count(times, buildtime);
    let relevant = relevant_changes(times, now);
    assert(STABILITY_LOOKBACK_DAYS * SECS_PER_DAY == 31_536_000);
    assert(SECS_PER_DAY == 86_400);
    lemma_day_runs_bounds(relevant);
    lemma_relevant_len(times, now);
    assert forall|t: u64| relevant.contains(t) <==> #[trigger] times.contains(t) && t + 31_536_000
        >= now by {
        lemma_relevant(times, now, t);
    }
    if times.len() == 0 {
        assert(all[0] == buildtime);
        assert(all.contains(buildtime));
        reveal(Seq::filter);
        assert(relevant =~= Seq::<u64>::empty());
    } else if relevant.len() > 0 {
        lemma_oldest(relevant);
        let first = oldest(relevant);
        lemma_relevant(times, now, first);
        assert(all.contains(first));
        assert forall|t: u64| #[trigger] all.contains(t) && t + 31_536_000 >= now implies first
            <= t by {
            lemma_relevant(times, now, t);
            let i = relevant.index_of(t);
            assert(relevant[i] == t);
        }
    } else {
        assert forall|t: u64| #[trigger] all.contains(t) implies t + 31_536_000 < now by {
            lemma_relevant(times, now, t);
        }
    }
}

proof fn lemma_relevant_len(times: Seq<u64>, now: u64)
    ensures
        relevant_changes(times, now).len() <= times.len(),
    decreases times.len(),
{
    reveal(Seq::filter);
    if times.len() > 0 {
        lemma_relevant_len(times.drop_last(), now);
    }
}

/// The days, of 86,400 seconds, of the past year on which there was a change.
pub open spec fn days_with_changes(times: Seq<u64>, now: u64) -> Set<int> {
    Set::new(
        |d: int|
            exists|t: u64| #[trigger]
                times.contains(t) && t + 31_536_000 >= now && t as int / 86_400 == d,
    )
}

/// In a sorted changelog the changes are counted by days: the count is the number of days
/// of the past year on which there was a change.
pub proof fn lemma_changes_by_days(times: Seq<u64>, buildtime: u64, now: u64)
    requires
        0 < times.len() <= u64::MAX,
        forall|i: int, j: int| 0 <= i <= j < times.len() ==> times[i] <= times[j],
    ensures
        stability_of(times, buildtime, now) matches Stability::Changes { count, span_secs } ==> count
            == days_with_changes(times, now).len(),
{
    let relevant = relevant_changes(times, now);
    assert(SECS_PER_DAY == 86_400);
    lemma_relevant_sorted(times, now);
    lemma_sorted_days(relevant);
    lemma_day_runs_bounds(relevant);
    lemma_relevant_len(times, now);
    let f = |t: u64| day(t);
    assert forall|d: int| days_of(relevant).contains(d) <==> #[trigger] days_with_changes(
        times,
        now,
    ).contains(d) by {
        if days_of(relevant).contains(d) {
            let i = choose|i: int|
                0 <= i < relevant.map_values(f).len() && relevant.map_values(f)[i] == d;
            let t = relevant[i];
            assert(relevant.contains(t));
            lemma_relevant(times, now, t);
        }
        if days_with_changes(times, now).contains(d) {
            let t = choose|t: u64| #[trigger]
                times.contains(t) && t + 31_536_000 >= now && t as int / 86_400 == d;
            lemma_relevant(times, now, t);
            let i = relevant.index_of(t);
            assert(relevant.map_values(f)[i] == d);
        }
    }
    assert(days_of(relevant) =~= days_with_changes(times, now));
}

proof fn lemma_relevant_sorted(times: Seq<u64>, now: u64)
    requires
        forall|i: int, j: int| 0 <= i <= j < times.len() ==> times[i] <= times[j],
    ensures
        forall|i: int, j: int|
            0 <= i <= j < relevant_changes(times, now).len() ==> relevant_changes(times, now)[i]
                <= relevant_changes(times, now)[j],
    decreases times.len(),
{
    reveal(Seq::filter);
    if times.len() > 0 {
        let front = times.drop_last();
        let last = times.last();
        assert forall|i: int, j: int| 0 <= i <= j < front.len() implies front[i] <= front[j] by {
            assert(front[i] == times[i] && front[j] == times[j]);
        }
        lemma_relevant_sorted(front, now);
        let before = relevant_changes(front, now);
        let after = relevant_changes(times, now);
        assert forall|i: int, j: int| 0 <= i <= j < after.len() implies after[i] <= after[j] by {
            if j >= before.len() && i < before.len() {
                assert(before.contains(before[i]));
                lemma_relevant(front, now, before[i]);
                let k = front.index_of(before[i]);
                assert(times[k] <= times[times.len() - 1]);
            }
        }
    }
}

/// A day that has been counted is not counted again: a change more on the day of the last
/// one of the past year leaves the count as it is, and one on another day adds to it.
pub proof fn lemma_change_more(times: Seq<u64>, t: u64, buildtime: u64, now: u64)
    requires
        0 < times.len() < u64::MAX,
        times.last() + 31_536_000 >= now,
        t + 31_536_000 >= now,
    ensures
        match (stability_of(times, buildtime, now), stability_of(times.push(t), buildtime, now)) {
            (
                Stability::Changes { count: a, .. },
                Stability::Changes { count: b, .. },
            ) => b == a + if t as int / 86_400 == times.last() as int / 86_400 {
                0int
            } else {
                1int
            },
            _ => true,
        },
{
    reveal(Seq::filter);
    assert(STABILITY_LOOKBACK_DAYS * SECS_PER_DAY == 31_536_000);
    assert(SECS_PER_DAY == 86_400);
    let more = times.push(t);
    assert(more.drop_last() =~= times);
    let a = relevant_changes(times, now);
    let b = relevant_changes(more, now);
    assert(b =~= a.push(t));
    assert(a.last() == times.last());
    assert(b.drop_last() =~= a);
    lemma_day_runs_bounds(a);
    lemma_day_runs_bounds(b);
    lemma_relevant_len(times, now);
    lemma_relevant_len(more, now);
}

} // verus!
