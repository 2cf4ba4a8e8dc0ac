//! The active-timer state machine.
//!
//! Each operation takes the whole active set, as read from the store in
//! ascending id order, decides, and changes it in place. The caller writes
//! the changed records back.
use vstd::prelude::*;
use vstd::string::{StringExecFns, StringSliceAdditionalSpecFns};
use vstd::utf8::{encode_utf8, is_char_boundary};

use crate::state::{
    active_secs, active_seconds, break_sums_fit, checked_total_break_secs, fits_i64, total_break_secs, total_breaks, ActiveTimer, Break, TimeEntry,
    TimerState,
};

verus! {

/// Why an operation on the active set did not take place.
#[derive(Clone, Copy, Debug, PartialEq, Eq, Structural)]
pub enum TimerError {
    /// There is no timer in the state the operation needs, or the chosen
    /// one does not exist.
    NotFound,
    /// A timer is already running.
    Conflict,
}

/// No two timers of the set are running.
pub open spec fn at_most_one_running(s: Seq<ActiveTimer>) -> bool {
    forall|i: int, j: int|
        0 <= i < s.len() && 0 <= j < s.len() && #[trigger] s[i].is_running()
            && #[trigger] s[j].is_running() ==> i == j
}

pub open spec fn has_running(s: Seq<ActiveTimer>) -> bool {
    exists|i: int| 0 <= i < s.len() && #[trigger] s[i].is_running()
}

/// `i` is the position of the first running timer of `s`.
pub open spec fn first_running(s: Seq<ActiveTimer>, i: int) -> bool {
    &&& 0 <= i < s.len()
    &&& s[i].is_running()
    &&& forall|j: int| 0 <= j < i ==> !(#[trigger] s[j].is_running())
}

/// Positions of the paused timers of `s`, in ascending order.
pub open spec fn paused_positions(s: Seq<ActiveTimer>) -> Seq<usize>
    decreases s.len(),
{
    if s.len() == 0 {
        Seq::empty()
    } else if s.last().is_paused() {
        paused_positions(s.drop_last()).push((s.len() - 1) as usize)
    } else {
        paused_positions(s.drop_last())
    }
}

/// `u` is `t` put into a break that begins at `now`.
pub open spec fn paused_from(u: ActiveTimer, t: ActiveTimer, now: i64) -> bool {
    &&& u.state == TimerState::Paused
    &&& u.breaks@ == t.breaks@.push(Break { start_ts: now, end_ts: 0 })
    &&& same_record(u, t)
}

/// The breaks of a timer that resumes at `now`: the last one, if open, ends.
pub open spec fn closed_at(bs: Seq<Break>, now: i64) -> Seq<Break> {
    if bs.len() > 0 && bs.last().is_open() {
        bs.update(bs.len() - 1, Break { end_ts: now, ..bs.last() })
    } else {
        bs
    }
}

/// `u` is `t` running again from `now`.
pub open spec fn resumed_from(u: ActiveTimer, t: ActiveTimer, now: i64) -> bool {
    &&& u.state == TimerState::Running
    &&& u.breaks@ == closed_at(t.breaks@, now)
    &&& same_record(u, t)
}

/// `u` and `t` agree on everything but state and breaks.
pub open spec fn same_record(u: ActiveTimer, t: ActiveTimer) -> bool {
    &&& u.id == t.id
    &&& u.name@ == t.name@
    &&& u.category@ == t.category@
    &&& u.started_at == t.started_at
    &&& u.todo_id == t.todo_id
}

/// `s2` is `s1` with the timer at `i` changed by `f`, the rest untouched.
pub open spec fn changed_at(s2: Seq<ActiveTimer>, s1: Seq<ActiveTimer>, i: int) -> bool {
    &&& s2.len() == s1.len()
    &&& 0 <= i < s1.len()
    &&& forall|j: int| 0 <= j < s1.len() && j != i ==> s2[j] == s1[j]
}

fn pause_timer(t: &mut ActiveTimer, now_ts: i64)
    ensures
        paused_from(*final(t), *old(t), now_ts),
{
    t.state = TimerState::Paused;
    t.breaks.push(Break { start_ts: now_ts, end_ts: 0 });
}

fn resume_timer(t: &mut ActiveTimer, now_ts: i64)
    ensures
        resumed_from(*final(t), *old(t), now_ts),
{
    t.state = TimerState::Running;
    let n = t.breaks.len();
    if n > 0 && t.breaks[n - 1].end_ts == 0 {
        let last = t.breaks[n - 1];
        t.breaks.set(n - 1, Break { end_ts: now_ts, ..last });
    }
}

/// Position of the running timer, the first one should there be several.
pub fn get_running(timers: &Vec<ActiveTimer>) -> (r: Option<usize>)
    ensures
        match r {
            Some(i) => first_running(timers@, i as int),
            None => !has_running(timers@),
        },
{
    let mut i: usize = 0;
    while i < timers.len()
        invariant
            0 <= i <= timers.len(),
            forall|j: int| 0 <= j < i ==> !(#[trigger] timers@[j].is_running()),
        decreases timers.len() - i,
    {
        if timers[i].state == TimerState::Running {
            return Some(i);
        }
        i = i + 1;
    }
    None
}

/// Position of the timer with the given id.
pub fn get_active_by_id(timers: &Vec<ActiveTimer>, id: u32) -> (r: Option<usize>)
    ensures
        match r {
            Some(i) => i < timers@.len() && timers@[i as int].id == Some(id),
            None => forall|j: int| 0 <= j < timers@.len() ==> (#[trigger] timers@[j]).id != Some(id),
        },
{
    let mut i: usize = 0;
    while i < timers.len()
        invariant
            0 <= i <= timers.len(),
            forall|j: int| 0 <= j < i ==> (#[trigger] timers@[j]).id != Some(id),
        decreases timers.len() - i,
    {
        if timers[i].id == Some(id) {
            return Some(i);
        }
        i = i + 1;
    }
    None
}

/// The empty active set, where every run of the tool begins, has no two
/// running timers; and each of `start`, `stop`, `pause`, `resume` and
/// `switch` keeps that so (see their contracts), so any sequence of them
/// does.
pub proof fn lemma_initial_set_has_at_most_one_running()
    ensures
        at_most_one_running(Seq::<ActiveTimer>::empty()),
{
}

/// Positions of the paused timers, in the order of the set.
pub fn paused_indices(timers: &Vec<ActiveTimer>) -> (r: Vec<usize>)
    ensures
        r@ == paused_positions(timers@),
        forall|k: int|
            0 <= k < r@.len() ==> (#[trigger] r@[k]) < timers@.len() && timers@[r@[
                k
            ] as int].is_paused(),
{
    let mut r: Vec<usize> = Vec::new();
    let mut i: usize = 0;
    while i < timers.len()
        invariant
            0 <= i <= timers.len(),
            r@ == paused_positions(timers@.take(i as int)),
        decreases timers.len() - i,
    {
        assert(timers@.take(i + 1).drop_last() =~= timers@.take(i as int));
        if timers[i].state == TimerState::Paused {
            r.push(i);
        }
        i = i + 1;
    }
    assert(timers@.take(timers@.len() as int) =~= timers@);
    proof {
        lemma_paused_positions(timers@);
    }
    r
}

proof fn lemma_paused_positions(s: Seq<ActiveTimer>)
    requires
        s.len() <= usize::MAX,
    ensures
        forall|k: int|
            0 <= k < paused_positions(s).len() ==> (#[trigger] paused_positions(s)[k]) < s.len()
                && s[paused_positions(s)[k] as int].is_paused(),
    decreases s.len(),
{
    if s.len() > 0 {
        let p = s.drop_last();
        lemma_paused_positions(p);
        let q = paused_positions(s);
        assert forall|k: int| 0 <= k < q.len() implies (#[trigger] q[k]) < s.len() && s[q[
            k
        ] as int].is_paused() by {
            if s.last().is_paused() {
                assert(q == paused_positions(p).push((s.len() - 1) as usize));
            } else {
                assert(q == paused_positions(p));
            }
            if k < paused_positions(p).len() {
                assert(q[k] == paused_positions(p)[k]);
                assert(s[q[k] as int] == p[q[k] as int]);
            }
        }
    }
}

/// Pause the running timer: a break opens at `now_ts`. Gives its position.
pub fn pause(timers: &mut Vec<ActiveTimer>, now_ts: i64) -> (r: Result<usize, TimerError>)
    ensures
        match r {
            Ok(i) => {
                &&& first_running(old(timers)@, i as int)
                &&& changed_at(final(timers)@, old(timers)@, i as int)
                &&& paused_from(final(timers)@[i as int], old(timers)@[i as int], now_ts)
            },
            Err(e) => {
                &&& e == TimerError::NotFound
                &&& !has_running(old(timers)@)
                &&& final(timers)@ == old(timers)@
            },
        },
        at_most_one_running(old(timers)@) ==> at_most_one_running(final(timers)@),
{
    match get_running(timers) {
        None => Err(TimerError::NotFound),
        Some(i) => {
            pause_timer(&mut timers[i], now_ts);
            Ok(i)
        },
    }
}

/// The paused timer that a choice `pick` among `n` paused timers selects:
/// the only one where there is one, else the `pick`-th.
pub open spec fn chosen(pick: usize, n: int) -> int {
    if n == 1 {
        0
    } else {
        pick as int
    }
}

/// Resume a paused timer: the only one, or the `pick`-th of the paused
/// timers in order where there are several. Its open break ends at `now_ts`.
pub fn resume(timers: &mut Vec<ActiveTimer>, pick: usize, now_ts: i64) -> (r: Result<
    usize,
    TimerError,
>)
    ensures
        has_running(old(timers)@) <==> r == Err::<usize, TimerError>(TimerError::Conflict),
        !has_running(old(timers)@) && (paused_positions(old(timers)@).len() == 0 || chosen(
            pick,
            paused_positions(old(timers)@).len() as int,
        ) >= paused_positions(old(timers)@).len()) <==> r == Err::<usize, TimerError>(
            TimerError::NotFound,
        ),
        r is Err ==> final(timers)@ == old(timers)@,
        match r {
            Ok(i) => {
                &&& i == paused_positions(old(timers)@)[chosen(
                    pick,
                    paused_positions(old(timers)@).len() as int,
                )]
                &&& changed_at(final(timers)@, old(timers)@, i as int)
                &&& resumed_from(final(timers)@[i as int], old(timers)@[i as int], now_ts)
                &&& forall|j: int|
                    0 <= j < final(timers)@.len() ==> (#[trigger] final(timers)@[j].is_running()
                        <==> j == i)
            },
            Err(_) => true,
        },
        r is Ok ==> at_most_one_running(final(timers)@),
        at_most_one_running(old(timers)@) ==> at_most_one_running(final(timers)@),
{
    if get_running(timers).is_some() {
        return Err(TimerError::Conflict);
    }
    let paused = paused_indices(timers);
    let k: usize = if paused.len() == 1 { 0 } else { pick };
    if k >= paused.len() {
        return Err(TimerError::NotFound);
    }
    let i = paused[k];
    resume_timer(&mut timers[i], now_ts);
    proof {
        assert forall|j: int| 0 <= j < timers@.len() implies (#[trigger] timers@[j].is_running()
            <==> j == i) by {
            if j != i {
                assert(timers@[j] == old(timers)@[j]);
            }
        }
        assert forall|a: int, b: int|
            0 <= a < timers@.len() && 0 <= b < timers@.len() && #[trigger] timers@[a].is_running()
                && #[trigger] timers@[b].is_running() implies a == b by {
            if a != i {
                assert(old(timers)@[a] == timers@[a]);
            }
            if b != i {
                assert(old(timers)@[b] == timers@[b]);
            }
        }
    }
    Ok(i)
}

/// What a switch did.
#[derive(Clone, Copy, Debug, PartialEq, Eq, Structural)]
pub enum SwitchOutcome {
    /// No timer was paused: nothing changed.
    NothingToSwitch,
    /// The timer at `resumed` runs; the one at `paused`, if any, was running
    /// and is now in a break.
    Switched { paused: Option<usize>, resumed: usize },
}

/// Switch to the `pick`-th paused timer, in order: the running timer, if
/// any, goes into a break at `now_ts`, and the chosen one resumes.
pub fn switch(timers: &mut Vec<ActiveTimer>, pick: usize, now_ts: i64) -> (r: Result<
    SwitchOutcome,
    TimerError,
>)
    ensures
        paused_positions(old(timers)@).len() == 0 <==> r == Ok::<SwitchOutcome, TimerError>(
            SwitchOutcome::NothingToSwitch,
        ),
        0 < paused_positions(old(timers)@).len() <= pick <==> r == Err::<
            SwitchOutcome,
            TimerError,
        >(TimerError::NotFound),
        r is Err ==> r == Err::<SwitchOutcome, TimerError>(TimerError::NotFound),
        pick < paused_positions(old(timers)@).len() ==> (r is Ok && r->Ok_0 is Switched),
        !(r is Ok && r->Ok_0 is Switched) ==> final(timers)@ == old(timers)@,
        match r {
            Ok(SwitchOutcome::Switched { paused, resumed }) => {
                let s1 = old(timers)@;
                let s2 = final(timers)@;
                &&& resumed == paused_positions(s1)[pick as int]
                &&& resumed_from(s2[resumed as int], s1[resumed as int], now_ts)
                &&& match paused {
                    Some(p) => {
                        &&& first_running(s1, p as int)
                        &&& paused_from(s2[p as int], s1[p as int], now_ts)
                    },
                    None => !has_running(s1),
                }
                &&& s2.len() == s1.len()
                &&& forall|j: int|
                    0 <= j < s1.len() && j != resumed && Some(j as usize) != paused ==> s2[j]
                        == s1[j]
                &&& at_most_one_running(s1) ==> forall|j: int|
                    0 <= j < s2.len() ==> (#[trigger] s2[j].is_running() <==> j == resumed)
            },
            _ => true,
        },
        at_most_one_running(old(timers)@) ==> at_most_one_running(final(timers)@),
{
    let paused = paused_indices(timers);
    if paused.len() == 0 {
        return Ok(SwitchOutcome::NothingToSwitch);
    }
    if pick >= paused.len() {
        return Err(TimerError::NotFound);
    }
    let target = paused[pick];
    let running = get_running(timers);
    let ghost s1 = timers@;
    match running {
        Some(p) => {
            pause_timer(&mut timers[p], now_ts);
        },
        None => {},
    }
    resume_timer(&mut timers[target], now_ts);
    proof {
        if at_most_one_running(s1) {
            assert forall|a: int, b: int|
                0 <= a < timers@.len() && 0 <= b < timers@.len()
                    && #[trigger] timers@[a].is_running() && #[trigger] timers@[b].is_running()
                implies a == b by {
                if a != target {
                    assert(s1[a].is_running() || Some(a as usize) == running);
                    if Some(a as usize) == running {
                        assert(!timers@[a].is_running());
                    }
                }
                if b != target {
                    if Some(b as usize) == running {
                        assert(!timers@[b].is_running());
                    }
                }
            }
        }
    }
    Ok(SwitchOutcome::Switched { paused: running, resumed: target })
}

/// What a start did.
#[derive(Clone, Copy, Debug, PartialEq, Eq, Structural)]
pub enum StartOutcome {
    /// A timer was running and pausing it was declined: nothing changed.
    Aborted,
    /// A new running timer stands last in the set; the one at `paused`, if
    /// any, was running and is now in a break.
    Started { paused: Option<usize> },
}

/// `t` is a fresh running timer with the given labels, begun at `now`.
pub open spec fn fresh_timer(
    t: ActiveTimer,
    name: Seq<char>,
    category: Seq<char>,
    todo_id: Option<u32>,
    now: i64,
) -> bool {
    &&& t.id is None
    &&& t.name@ == name
    &&& t.category@ == category
    &&& t.started_at == now
    &&& t.state == TimerState::Running
    &&& t.breaks@.len() == 0
    &&& t.todo_id == todo_id
}

/// Start a new timer at `now_ts`. A running timer is paused first, with its
/// break opening at `paused_at`, where `pause_confirmed` holds; where it
/// does not, nothing changes.
pub fn start(
    timers: &mut Vec<ActiveTimer>,
    name: String,
    category: String,
    todo_id: Option<u32>,
    paused_at: i64,
    now_ts: i64,
    pause_confirmed: bool,
) -> (r: StartOutcome)
    ensures
        r == StartOutcome::Aborted <==> has_running(old(timers)@) && !pause_confirmed,
        r == StartOutcome::Aborted ==> final(timers)@ == old(timers)@,
        match r {
            StartOutcome::Started { paused } => {
                let s1 = old(timers)@;
                let s2 = final(timers)@;
                &&& s2.len() == s1.len() + 1
                &&& fresh_timer(s2.last(), name@, category@, todo_id, now_ts)
                &&& match paused {
                    Some(p) => {
                        &&& first_running(s1, p as int)
                        &&& paused_from(s2[p as int], s1[p as int], paused_at)
                    },
                    None => !has_running(s1),
                }
                &&& forall|j: int| 0 <= j < s1.len() && Some(j as usize) != paused ==> s2[j] == s1[j]
            },
            StartOutcome::Aborted => true,
        },
        at_most_one_running(old(timers)@) ==> at_most_one_running(final(timers)@),
{
    let running = get_running(timers);
    let ghost s1 = timers@;
    match running {
        Some(p) => {
            if !pause_confirmed {
                return StartOutcome::Aborted;
            }
            pause_timer(&mut timers[p], paused_at);
        },
        None => {},
    }
    let ghost s_mid = timers@;
    timers.push(
        ActiveTimer {
            id: None,
            name,
            category,
            started_at: now_ts,
            state: TimerState::Running,
            breaks: Vec::new(),
            todo_id,
        },
    );
    proof {
        let n = s1.len();
        assert forall|j: int| 0 <= j < n implies timers@[j] == s_mid[j] by {}
        if at_most_one_running(s1) {
            assert forall|a: int, b: int|
                0 <= a < timers@.len() && 0 <= b < timers@.len()
                    && #[trigger] timers@[a].is_running() && #[trigger] timers@[b].is_running()
                implies a == b by {
                if a < n {
                    if Some(a as usize) != running {
                        assert(s1[a].is_running());
                    }
                }
                if b < n {
                    if Some(b as usize) != running {
                        assert(s1[b].is_running());
                    }
                }
            }
        }
    }
    StartOutcome::Started { paused: running }
}

/// `e` is the log entry of timer `t` stopped at `now`.
pub open spec fn entry_of(e: TimeEntry, t: ActiveTimer, now: i64) -> bool {
    &&& e.name@ == t.name@
    &&& e.category@ == t.category@
    &&& e.started_at == t.started_at
    &&& e.ended_at == now
    &&& e.active_secs == active_secs(t.started_at, t.breaks@, now)
    &&& e.breaks@ == t.breaks@
    &&& e.todo_id == t.todo_id
}

/// Stop the running timer at `now_ts`: it leaves the set and its log entry
/// is returned, with active time computed up to `now_ts`. The entry's `id`
/// is left for the store to give.
pub fn stop(timers: &mut Vec<ActiveTimer>, now_ts: i64) -> (r: Result<TimeEntry, TimerError>)
    requires
        forall|i: int|
            0 <= i < old(timers)@.len() && #[trigger] old(timers)@[i].is_running() ==> old(
                timers,
            )@[i].fits_at(now_ts),
    ensures
        match r {
            Ok(e) => exists|i: int|
                {
                    &&& first_running(old(timers)@, i)
                    &&& entry_of(e, old(timers)@[i], now_ts)
                    &&& final(timers)@ == old(timers)@.remove(i)
                },
            Err(e) => {
                &&& e == TimerError::NotFound
                &&& !has_running(old(timers)@)
                &&& final(timers)@ == old(timers)@
            },
        },
        at_most_one_running(old(timers)@) ==> at_most_one_running(final(timers)@),
        at_most_one_running(old(timers)@) && r is Ok ==> !has_running(final(timers)@),
{
    match get_running(timers) {
        None => Err(TimerError::NotFound),
        Some(i) => {
            let ghost s1 = timers@;
            let t = timers.remove(i);
            let active = active_seconds(t.started_at, &t.breaks, now_ts);
            proof {
                if at_most_one_running(s1) {
                    assert forall|a: int, b: int|
                        0 <= a < timers@.len() && 0 <= b < timers@.len()
                            && #[trigger] timers@[a].is_running()
                            && #[trigger] timers@[b].is_running() implies a == b by {
                        let a1 = if a < i { a } else { a + 1 };
                        let b1 = if b < i { b } else { b + 1 };
                        assert(timers@[a] == s1[a1]);
                        assert(timers@[b] == s1[b1]);
                    }
                    assert forall|a: int| 0 <= a < timers@.len() implies !(
                    #[trigger] timers@[a].is_running()) by {
                        let a1 = if a < i { a } else { a + 1 };
                        assert(timers@[a] == s1[a1]);
                    }
                }
            }
            Ok(
                TimeEntry {
                    id: 0,
                    name: t.name,
                    category: t.category,
                    started_at: t.started_at,
                    ended_at: now_ts,
                    active_secs: active,
                    breaks: t.breaks,
                    todo_id: t.todo_id,
                },
            )
        },
    }
}

/// The computed view of one active timer at a given time.
#[derive(Clone, Copy, Debug, PartialEq, Eq, Structural)]
pub struct TimerStatus {
    pub id: Option<u32>,
    pub running: bool,
    pub active_secs: i64,
    pub break_secs: i64,
}

/// `r` lists, for each timer of `s` in order, its durations at `now`.
pub open spec fn status_of(r: Seq<TimerStatus>, s: Seq<ActiveTimer>, now: i64) -> bool {
    &&& r.len() == s.len()
    &&& forall|i: int|
        0 <= i < s.len() ==> {
            &&& (#[trigger] r[i]).id == s[i].id
            &&& r[i].running == s[i].is_running()
            &&& r[i].active_secs == active_secs(s[i].started_at, s[i].breaks@, now)
            &&& r[i].break_secs == total_breaks(s[i].breaks@, now)
        }
}

/// Active and break time of every active timer at `now_ts`, in order.
/// Nothing is changed.
pub fn status(timers: &Vec<ActiveTimer>, now_ts: i64) -> (r: Vec<TimerStatus>)
    requires
        forall|i: int| 0 <= i < timers@.len() ==> (#[trigger] timers@[i]).fits_at(now_ts),
    ensures
        status_of(r@, timers@, now_ts),
{
    let mut r: Vec<TimerStatus> = Vec::new();
    let mut i: usize = 0;
    while i < timers.len()
        invariant
            0 <= i <= timers.len(),
            forall|k: int| 0 <= k < timers@.len() ==> (#[trigger] timers@[k]).fits_at(now_ts),
            status_of(r@, timers@.take(i as int), now_ts),
        decreases timers.len() - i,
    {
        let t = &timers[i];
        assert(t.fits_at(now_ts));
        let active = active_seconds(t.started_at, &t.breaks, now_ts);
        let breaks = total_break_secs(&t.breaks, now_ts);
        r.push(
            TimerStatus {
                id: t.id,
                running: t.state == TimerState::Running,
                active_secs: active,
                break_secs: breaks,
            },
        );
        i = i + 1;
    }
    assert(timers@.take(timers@.len() as int) =~= timers@);
    r
}

/// Computing the status twice over the same set at the same time gives the
/// same durations: the result is fixed by the set and the time alone.
pub proof fn lemma_status_repeatable(
    r1: Seq<TimerStatus>,
    r2: Seq<TimerStatus>,
    s: Seq<ActiveTimer>,
    now: i64,
)
    requires
        status_of(r1, s, now),
        status_of(r2, s, now),
    ensures
        r1 == r2,
{
    assert(r1 =~= r2);
}

/// `s` shortened to at most `max` bytes of UTF-8: where longer, its first
/// `max - 1` bytes and an ellipsis. The cut must fall on a character
/// boundary.
pub fn truncate(s: &str, max: usize) -> (r: String)
    requires
        max >= 1,
        s.spec_bytes().len() > max ==> is_char_boundary(s.spec_bytes(), max - 1),
    ensures
        s.spec_bytes().len() > max ==> encode_utf8(r@.drop_last()) == s.spec_bytes().subrange(
            0,
            max - 1,
        ) && r@.last() == '…',
        s.spec_bytes().len() <= max ==> r@ == s@,
{
    let n = s.as_bytes().len();
    if n > max {
        let (head, _) = s.split_at(max - 1);
        let mut r = head.to_string();
        proof {
            reveal_strlit("…");
        }
        r.append("…");
        assert(r@.drop_last() =~= head@);
        assert(head.spec_bytes() == encode_utf8(head@));
        assert(encode_utf8(r@.drop_last()) == s.spec_bytes().subrange(0, max - 1));
        assert(r@.last() == '…');
        r
    } else {
        s.to_string()
    }
}

/// Seconds in the week-long window of the log.
pub const WEEK_SECS: i64 = 604800;

/// Where the log's time window begins: the start of the current day for
/// `today`, seven days before `now_ts` for `week`, and nowhere otherwise.
pub fn log_window(today: bool, week: bool, day_start: i64, now_ts: i64) -> (r: Option<i64>)
    requires
        week && !today ==> now_ts >= i64::MIN + WEEK_SECS,
    ensures
        r == (if today {
            Some(day_start)
        } else if week {
            Some((now_ts - WEEK_SECS) as i64)
        } else {
            None::<i64>
        }),
{
    if today {
        Some(day_start)
    } else if week {
        Some(now_ts - WEEK_SECS)
    } else {
        None
    }
}

/// The entry lies in a window that begins at `since` (everything, for none).
pub open spec fn in_window(e: TimeEntry, since: Option<i64>) -> bool {
    match since {
        Some(t) => e.started_at >= t,
        None => true,
    }
}

/// Positions of the entries of `es` that lie in the window, in order.
pub open spec fn window_positions(es: Seq<TimeEntry>, since: Option<i64>) -> Seq<usize>
    decreases es.len(),
{
    if es.len() == 0 {
        Seq::empty()
    } else if in_window(es.last(), since) {
        window_positions(es.drop_last(), since).push((es.len() - 1) as usize)
    } else {
        window_positions(es.drop_last(), since)
    }
}

/// The entries are in ascending id order, as the store lists them.
pub open spec fn ids_ascending(es: Seq<TimeEntry>) -> bool {
    forall|a: int, b: int| 0 <= a < b < es.len() ==> #[trigger] es[a].id < #[trigger] es[b].id
}

proof fn lemma_window_positions(es: Seq<TimeEntry>, since: Option<i64>)
    requires
        es.len() <= usize::MAX,
    ensures
        forall|k: int|
            0 <= k < window_positions(es, since).len() ==> (#[trigger] window_positions(
                es,
                since,
            )[k]) < es.len() && in_window(es[window_positions(es, since)[k] as int], since),
        forall|a: int, b: int|
            0 <= a < b < window_positions(es, since).len() ==> #[trigger] window_positions(
                es,
                since,
            )[a] < #[trigger] window_positions(es, since)[b],
    decreases es.len(),
{
    if es.len() > 0 {
        let p = es.drop_last();
        lemma_window_positions(p, since);
        let q = window_positions(es, since);
        let w = window_positions(p, since);
        if in_window(es.last(), since) {
            assert(q == w.push((es.len() - 1) as usize));
        } else {
            assert(q == w);
        }
        assert forall|k: int| 0 <= k < q.len() implies (#[trigger] q[k]) < es.len() && in_window(
            es[q[k] as int],
            since,
        ) by {
            if k < w.len() {
                assert(q[k] == w[k]);
                assert(es[q[k] as int] == p[q[k] as int]);
            }
        }
        assert forall|a: int, b: int| 0 <= a < b < q.len() implies #[trigger] q[a] < #[trigger] q[b] by {
            if b < w.len() {
                assert(q[a] == w[a] && q[b] == w[b]);
            } else {
                assert(q[a] == w[a]);
            }
        }
    }
}

/// The log entries to list: positions of those begun at or after
/// `since_ts`, or of all of them, in the order given; entries given in
/// ascending id order are listed in ascending id order.
pub fn log(entries: &Vec<TimeEntry>, since_ts: Option<i64>) -> (r: Vec<usize>)
    ensures
        r@ == window_positions(entries@, since_ts),
        forall|k: int|
            0 <= k < r@.len() ==> (#[trigger] r@[k]) < entries@.len() && in_window(
                entries@[r@[k] as int],
                since_ts,
            ),
        ids_ascending(entries@) ==> forall|a: int, b: int|
            0 <= a < b < r@.len() ==> #[trigger] entries@[r@[a] as int].id < #[trigger] entries@[r@[
                b
            ] as int].id,
{
    let mut r: Vec<usize> = Vec::new();
    let mut i: usize = 0;
    while i < entries.len()
        invariant
            0 <= i <= entries.len(),
            r@ == window_positions(entries@.take(i as int), since_ts),
        decreases entries.len() - i,
    {
        assert(entries@.take(i + 1).drop_last() =~= entries@.take(i as int));
        let keep = match since_ts {
            Some(t) => entries[i].started_at >= t,
            None => true,
        };
        if keep {
            r.push(i);
        }
        i = i + 1;
    }
    assert(entries@.take(entries@.len() as int) =~= entries@);
    proof {
        lemma_window_positions(entries@, since_ts);
        if ids_ascending(entries@) {
            assert forall|a: int, b: int| 0 <= a < b < r@.len() implies #[trigger] entries@[r@[
                a
            ] as int].id < #[trigger] entries@[r@[b] as int].id by {
                assert(r@[a] < r@[b]);
            }
        }
    }
    r
}

/// Sum of the active seconds of the entries.
pub open spec fn sum_active(es: Seq<TimeEntry>) -> int
    decreases es.len(),
{
    if es.len() == 0 {
        0
    } else {
        sum_active(es.drop_last()) + es.last().active_secs
    }
}

/// Sum of the break seconds of the entries, each measured up to its end.
pub open spec fn sum_breaks(es: Seq<TimeEntry>) -> int
    decreases es.len(),
{
    if es.len() == 0 {
        0
    } else {
        sum_breaks(es.drop_last()) + total_breaks(es.last().breaks@, es.last().ended_at)
    }
}

/// Every running sum of the log's totals fits in an `i64`.
pub open spec fn totals_fit(es: Seq<TimeEntry>) -> bool {
    forall|k: int|
        0 <= k <= es.len() ==> {
            &&& fits_i64(#[trigger] sum_active(es.take(k)))
            &&& fits_i64(sum_breaks(es.take(k)))
            &&& (k < es.len() ==> break_sums_fit(es[k].breaks@, es[k].ended_at))
        }
}

/// Total active and break seconds over the listed entries, or `None` where
/// a sum leaves the range of `i64`.
pub fn log_totals(entries: &Vec<TimeEntry>) -> (r: Option<(i64, i64)>)
    ensures
        r == (if totals_fit(entries@) {
            Some((sum_active(entries@) as i64, sum_breaks(entries@) as i64))
        } else {
            None::<(i64, i64)>
        }),
{
    let mut active: i64 = 0;
    let mut breaks: i64 = 0;
    let mut i: usize = 0;
    while i < entries.len()
        invariant
            0 <= i <= entries.len(),
            active == sum_active(entries@.take(i as int)),
            breaks == sum_breaks(entries@.take(i as int)),
            forall|k: int|
                0 <= k <= i ==> {
                    &&& fits_i64(#[trigger] sum_active(entries@.take(k)))
                    &&& fits_i64(sum_breaks(entries@.take(k)))
                    &&& (k < i ==> break_sums_fit(entries@[k].breaks@, entries@[k].ended_at))
                },
        decreases entries.len() - i,
    {
        let e = &entries[i];
        assert(entries@.take(i + 1).drop_last() =~= entries@.take(i as int));
        assert(entries@.take(i + 1).last() == entries@[i as int]);
        let b = match checked_total_break_secs(&e.breaks, e.ended_at) {
            None => {
                return None;
            },
            Some(b) => b,
        };
        let a: i128 = active as i128 + e.active_secs as i128;
        let t: i128 = breaks as i128 + b as i128;
        if a < i64::MIN as i128 || a > i64::MAX as i128 || t < i64::MIN as i128 || t > i64::MAX
            as i128 {
            assert(!fits_i64(sum_active(entries@.take(i + 1))) || !fits_i64(
                sum_breaks(entries@.take(i + 1)),
            ));
            return None;
        }
        active = a as i64;
        breaks = t as i64;
        assert(sum_active(entries@.take(i + 1)) == active);
        assert(sum_breaks(entries@.take(i + 1)) == breaks);
        assert(break_sums_fit(entries@[i as int].breaks@, entries@[i as int].ended_at));
        assert forall|k: int| 0 <= k <= i + 1 implies {
            &&& fits_i64(#[trigger] sum_active(entries@.take(k)))
            &&& fits_i64(sum_breaks(entries@.take(k)))
            &&& (k < i + 1 ==> break_sums_fit(entries@[k].breaks@, entries@[k].ended_at))
        } by {
            if k <= i {
                assert(fits_i64(sum_active(entries@.take(k))));
            }
        }
        i = i + 1;
    }
    assert(entries@.take(entries@.len() as int) =~= entries@);
    Some((active, breaks))
}

} // verus!
