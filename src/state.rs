//! Records, break intervals and the duration arithmetic over them.
use vstd::prelude::*;
use vstd::string::StringExecFns;

pub use crate::codec::{decode_breaks, encode_breaks};



verus! {

/// One break of a timer. An `end_ts` of zero marks a break still in progress.
#[derive(Clone, Copy, Debug, PartialEq, Eq, Structural)]
pub struct Break {
    pub start_ts: i64,
    pub end_ts: i64,
}

impl Break {
    pub open spec fn is_open(self) -> bool {
        self.end_ts == 0
    }

    /// The end of the break, with an open break ending at `now`.
    pub open spec fn end_at(self, now: i64) -> int {
        if self.end_ts == 0 {
            now as int
        } else {
            self.end_ts as int
        }
    }

    /// Seconds the break lasts, as seen at `now`.
    pub open spec fn secs(self, now: i64) -> int {
        self.end_at(now) - self.start_ts
    }
}

/// Whether an active timer counts time or sits in a break.
#[derive(Clone, Copy, Debug, PartialEq, Eq, Structural)]
pub enum TimerState {
    Running,
    Paused,
}

/// A session in flight. `id` is given by the store when the record is first
/// written; `started_at` is never changed after creation.
#[derive(Clone, Debug, PartialEq, Eq)]
pub struct ActiveTimer {
    pub id: Option<u32>,
    pub name: String,
    pub category: String,
    pub started_at: i64,
    pub state: TimerState,
    pub breaks: Vec<Break>,
    pub todo_id: Option<u32>,
}

impl ActiveTimer {
    pub open spec fn is_running(self) -> bool {
        self.state == TimerState::Running
    }

    pub open spec fn is_paused(self) -> bool {
        self.state == TimerState::Paused
    }

    /// The durations of this timer can be computed at `now` without overflow.
    pub open spec fn fits_at(self, now: i64) -> bool {
        durations_fit(self.started_at, self.breaks@, now)
    }
}

/// A finished session, written once when its timer stops.
#[derive(Clone, Debug, PartialEq, Eq)]
pub struct TimeEntry {
    pub id: u32,
    pub name: String,
    pub category: String,
    pub started_at: i64,
    pub ended_at: i64,
    pub active_secs: i64,
    pub breaks: Vec<Break>,
    pub todo_id: Option<u32>,
}

/// A task that timers and log entries may refer to.
#[derive(Clone, Debug, PartialEq, Eq)]
pub struct TodoItem {
    pub id: u32,
    pub text: String,
    pub done: bool,
    pub created_at: i64,
}

/// Sum of the lengths of the breaks, with open breaks ending at `now`.
pub open spec fn total_breaks(bs: Seq<Break>, now: i64) -> int
    decreases bs.len(),
{
    if bs.len() == 0 {
        0
    } else {
        total_breaks(bs.drop_last(), now) + bs.last().secs(now)
    }
}

pub open spec fn fits_i64(x: int) -> bool {
    i64::MIN <= x <= i64::MAX
}

/// Every running sum of the break lengths fits in an `i64`.
pub open spec fn break_sums_fit(bs: Seq<Break>, now: i64) -> bool {
    forall|k: int| 0 <= k <= bs.len() ==> #[trigger] fits_i64(total_breaks(bs.take(k), now))
}

/// Active seconds of a session begun at `started_at`, seen at `now`:
/// elapsed time less break time, never below zero.
pub open spec fn active_secs(started_at: i64, bs: Seq<Break>, now: i64) -> int {
    let d = (now - started_at) - total_breaks(bs, now);
    if d < 0 {
        0
    } else {
        d
    }
}

/// The durations of a session can be computed in `i64` without overflow.
pub open spec fn durations_fit(started_at: i64, bs: Seq<Break>, now: i64) -> bool {
    &&& break_sums_fit(bs, now)
    &&& fits_i64(now - started_at)
    &&& fits_i64((now - started_at) - total_breaks(bs, now))
}

proof fn lemma_full_sum_fits(bs: Seq<Break>, now: i64)
    requires
        break_sums_fit(bs, now),
    ensures
        fits_i64(total_breaks(bs, now)),
{
    assert(bs.take(bs.len() as int) =~= bs);
    assert(fits_i64(total_breaks(bs.take(bs.len() as int), now)));
}

/// Total break seconds, or `None` where a running sum leaves the range of `i64`.
pub fn checked_total_break_secs(breaks: &Vec<Break>, now_ts: i64) -> (r: Option<i64>)
    ensures
        r == (if break_sums_fit(breaks@, now_ts) {
            Some(total_breaks(breaks@, now_ts) as i64)
        } else {
            None::<i64>
        }),
        r is Some ==> r->Some_0 == total_breaks(breaks@, now_ts),
{
    let mut acc: i64 = 0;
    let mut i: usize = 0;
    while i < breaks.len()
        invariant
            0 <= i <= breaks.len(),
            acc == total_breaks(breaks@.take(i as int), now_ts),
            forall|k: int| 0 <= k <= i ==> #[trigger] fits_i64(total_breaks(breaks@.take(k), now_ts)),
        decreases breaks.len() - i,
    {
        let b = breaks[i];
        let end: i64 = if b.end_ts == 0 { now_ts } else { b.end_ts };
        let next: i128 = acc as i128 + (end as i128 - b.start_ts as i128);
        assert(breaks@.take(i + 1).drop_last() =~= breaks@.take(i as int));
        assert(next == total_breaks(breaks@.take(i + 1), now_ts));
        if next < i64::MIN as i128 || next > i64::MAX as i128 {
            assert(!fits_i64(total_breaks(breaks@.take(i + 1), now_ts)));
            return None;
        }
        acc = next as i64;
        i = i + 1;
    }
    assert(breaks@.take(breaks@.len() as int) =~= breaks@);
    Some(acc)
}

/// Total seconds spent in breaks, with an open break lasting until `now_ts`.
pub fn total_break_secs(breaks: &Vec<Break>, now_ts: i64) -> (r: i64)
    requires
        break_sums_fit(breaks@, now_ts),
    ensures
        r == total_breaks(breaks@, now_ts),
{
    proof {
        lemma_full_sum_fits(breaks@, now_ts);
    }
    match checked_total_break_secs(breaks, now_ts) {
        Some(t) => t,
        None => 0,
    }
}

/// Whether the durations of a session can be computed without overflow.
pub fn check_durations_fit(started_at: i64, breaks: &Vec<Break>, now_ts: i64) -> (r: bool)
    ensures
        r == durations_fit(started_at, breaks@, now_ts),
{
    proof {
        if break_sums_fit(breaks@, now_ts) {
            lemma_full_sum_fits(breaks@, now_ts);
        }
    }
    match checked_total_break_secs(breaks, now_ts) {
        None => false,
        Some(t) => {
            let elapsed: i128 = now_ts as i128 - started_at as i128;
            let d: i128 = elapsed - t as i128;
            elapsed >= i64::MIN as i128 && elapsed <= i64::MAX as i128 && d >= i64::MIN as i128
                && d <= i64::MAX as i128
        },
    }
}

/// Active seconds of a session: elapsed time less break time, clamped at zero.
pub fn active_seconds(started_at: i64, breaks: &Vec<Break>, now_ts: i64) -> (r: i64)
    requires
        durations_fit(started_at, breaks@, now_ts),
    ensures
        r == active_secs(started_at, breaks@, now_ts),
        r >= 0,
{
    let elapsed: i64 = now_ts - started_at;
    let break_secs = total_break_secs(breaks, now_ts);
    let d: i64 = elapsed - break_secs;
    if d < 0 {
        0
    } else {
        d
    }
}

/// The breaks of a session begun at `started_at`, as seen at `now`: they
/// follow one another without overlap inside `[started_at, now]`, and only
/// the last one may still be open.
pub open spec fn breaks_well_formed(started_at: i64, bs: Seq<Break>, now: i64) -> bool {
    &&& 0 <= started_at <= now
    &&& forall|i: int| 0 <= i < bs.len() ==> started_at <= #[trigger] bs[i].start_ts
    &&& forall|i: int| 0 <= i < bs.len() ==> bs[i].start_ts <= #[trigger] bs[i].end_at(now) <= now
    &&& forall|i: int| 0 <= i < bs.len() - 1 ==> !(#[trigger] bs[i].is_open())
    &&& forall|i: int| 0 <= i < bs.len() - 1 ==> #[trigger] bs[i].end_at(now) <= bs[i + 1].start_ts
}

proof fn lemma_total_within(started_at: i64, bs: Seq<Break>, now: i64)
    requires
        breaks_well_formed(started_at, bs, now),
    ensures
        0 <= total_breaks(bs, now),
        bs.len() > 0 ==> total_breaks(bs, now) <= bs.last().end_at(now) - bs[0].start_ts,
    decreases bs.len(),
{
    if bs.len() > 0 {
        let p = bs.drop_last();
        assert(breaks_well_formed(started_at, p, now)) by {
            assert forall|i: int| 0 <= i < p.len() - 1 implies #[trigger] p[i].end_at(now) <= p[i
                + 1].start_ts by {
                assert(p[i] == bs[i] && p[i + 1] == bs[i + 1]);
            }
            assert forall|i: int| 0 <= i < p.len() - 1 implies !(#[trigger] p[i].is_open()) by {
                assert(p[i] == bs[i]);
            }
            assert forall|i: int| 0 <= i < p.len() implies p[i].start_ts <= #[trigger] p[
                i
            ].end_at(now) <= now by {
                assert(p[i] == bs[i]);
            }
            assert forall|i: int| 0 <= i < p.len() implies started_at <= #[trigger] p[i].start_ts by {
                assert(p[i] == bs[i]);
            }
        }
        lemma_total_within(started_at, p, now);
        let n = bs.len() - 1;
        assert(bs[n].start_ts <= bs[n].end_at(now));
        if p.len() > 0 {
            assert(p.last() == bs[n - 1]);
            assert(bs[n - 1].end_at(now) <= bs[n].start_ts);
        }
    }
}

/// For a session whose breaks lie, without overlap, inside `[started_at, now]`,
/// active time is never negative, and active time plus break time is exactly
/// the elapsed time. Every duration involved fits in an `i64`.
pub proof fn lemma_active_partition(started_at: i64, bs: Seq<Break>, now: i64)
    requires
        breaks_well_formed(started_at, bs, now),
    ensures
        durations_fit(started_at, bs, now),
        active_secs(started_at, bs, now) >= 0,
        active_secs(started_at, bs, now) + total_breaks(bs, now) == now - started_at,
{
    assert forall|k: int| 0 <= k <= bs.len() implies #[trigger] fits_i64(
        total_breaks(bs.take(k), now),
    ) by {
        let t = bs.take(k);
        assert forall|i: int| 0 <= i < t.len() - 1 implies #[trigger] t[i].end_at(now) <= t[i
            + 1].start_ts by {
            assert(t[i] == bs[i] && t[i + 1] == bs[i + 1]);
        }
        assert forall|i: int| 0 <= i < t.len() - 1 implies !(#[trigger] t[i].is_open()) by {
            assert(t[i] == bs[i]);
        }
        assert forall|i: int| 0 <= i < t.len() implies t[i].start_ts <= #[trigger] t[i].end_at(now)
            <= now by {
            assert(t[i] == bs[i]);
        }
        assert forall|i: int| 0 <= i < t.len() implies started_at <= #[trigger] t[i].start_ts by {
            assert(t[i] == bs[i]);
        }
        lemma_total_within(started_at, t, now);
        if t.len() > 0 {
            assert(t.last() == bs[k - 1]);
            assert(t[0] == bs[0]);
        }
    }
    lemma_total_within(started_at, bs, now);
    assert(bs.take(bs.len() as int) =~= bs);
}

/// The decimal digit `d`.
pub open spec fn digit(d: nat) -> char {
    if d == 0 {
        '0'
    } else if d == 1 {
        '1'
    } else if d == 2 {
        '2'
    } else if d == 3 {
        '3'
    } else if d == 4 {
        '4'
    } else if d == 5 {
        '5'
    } else if d == 6 {
        '6'
    } else if d == 7 {
        '7'
    } else if d == 8 {
        '8'
    } else {
        '9'
    }
}

/// `n` written in decimal, without leading zeros.
pub open spec fn decimal(n: nat) -> Seq<char>
    decreases n,
{
    if n < 10 {
        seq![digit(n)]
    } else {
        decimal(n / 10).push(digit(n % 10))
    }
}

/// `n` written in decimal on at least two digits.
pub open spec fn two_digits(n: nat) -> Seq<char> {
    if n < 10 {
        seq!['0', digit(n)]
    } else {
        decimal(n)
    }
}

/// A duration as text: `"{h}h {mm}m {ss}s"`, `"{m}m {ss}s"` or `"{s}s"`,
/// leaving out leading units that are zero. A negative duration keeps only
/// its signed seconds part, as truncating division gives it.
pub open spec fn duration_text(secs: int) -> Seq<char> {
    if secs >= 0 {
        let h = secs / 3600;
        let m = (secs % 3600) / 60;
        let s = secs % 60;
        if h > 0 {
            decimal(h as nat) + seq!['h', ' '] + two_digits(m as nat) + seq!['m', ' '] + two_digits(
                s as nat,
            ) + seq!['s']
        } else if m > 0 {
            decimal(m as nat) + seq!['m', ' '] + two_digits(s as nat) + seq!['s']
        } else {
            decimal(s as nat) + seq!['s']
        }
    } else {
        let s = (-secs) % 60;
        if s == 0 {
            seq!['0', 's']
        } else {
            seq!['-'] + decimal(s as nat) + seq!['s']
        }
    }
}

fn push_digit(d: u64, out: &mut String)
    requires
        d < 10,
    ensures
        final(out)@ == old(out)@.push(digit(d as nat)),
{
    let t: &str = if d == 0 {
        "0"
    } else if d == 1 {
        "1"
    } else if d == 2 {
        "2"
    } else if d == 3 {
        "3"
    } else if d == 4 {
        "4"
    } else if d == 5 {
        "5"
    } else if d == 6 {
        "6"
    } else if d == 7 {
        "7"
    } else if d == 8 {
        "8"
    } else {
        "9"
    };
    proof {
        reveal_strlit("0");
        reveal_strlit("1");
        reveal_strlit("2");
        reveal_strlit("3");
        reveal_strlit("4");
        reveal_strlit("5");
        reveal_strlit("6");
        reveal_strlit("7");
        reveal_strlit("8");
        reveal_strlit("9");
    }
    out.append(t);
    assert(out@ =~= old(out)@.push(digit(d as nat)));
}

pub(crate) fn push_decimal(n: u64, out: &mut String)
    ensures
        final(out)@ == old(out)@ + decimal(n as nat),
    decreases n,
{
    if n >= 10 {
        push_decimal(n / 10, out);
        push_digit(n % 10, out);
        assert(out@ =~= old(out)@ + decimal(n as nat));
    } else {
        push_digit(n, out);
        assert(out@ =~= old(out)@ + decimal(n as nat));
    }
}

fn push_two_digits(n: u64, out: &mut String)
    ensures
        final(out)@ == old(out)@ + two_digits(n as nat),
{
    if n < 10 {
        push_digit(0, out);
        push_digit(n, out);
        assert(out@ =~= old(out)@ + two_digits(n as nat));
    } else {
        push_decimal(n, out);
    }
}

fn push_text(t: &str, out: &mut String)
    ensures
        final(out)@ == old(out)@ + t@,
{
    out.append(t);
}

/// A duration in seconds as text, for instance `"1h 01m 05s"`, `"2m 03s"`
/// or `"7s"`.
pub fn format_duration(secs: i64) -> (r: String)
    ensures
        r@ == duration_text(secs as int),
{
    let mut out = String::new();
    proof {
        reveal_strlit("h ");
        reveal_strlit("m ");
        reveal_strlit("s");
        reveal_strlit("-");
        reveal_strlit("0s");
    }
    if secs >= 0 {
        let x = secs as u64;
        let h = x / 3600;
        let m = (x % 3600) / 60;
        let s = x % 60;
        if h > 0 {
            push_decimal(h, &mut out);
            push_text("h ", &mut out);
            push_two_digits(m, &mut out);
            push_text("m ", &mut out);
            push_two_digits(s, &mut out);
            push_text("s", &mut out);
        } else if m > 0 {
            push_decimal(m, &mut out);
            push_text("m ", &mut out);
            push_two_digits(s, &mut out);
            push_text("s", &mut out);
        } else {
            push_decimal(s, &mut out);
            push_text("s", &mut out);
        }
    } else {
        let a: u64 = (0 - (secs as i128)) as u64;
        let s = a % 60;
        if s == 0 {
            push_text("0s", &mut out);
        } else {
            push_text("-", &mut out);
            push_decimal(s, &mut out);
            push_text("s", &mut out);
        }
    }
    assert(out@ =~= duration_text(secs as int));
    out
}

} // verus!
