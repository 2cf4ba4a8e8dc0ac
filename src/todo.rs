//! Todos, and the time tracked against them.
use vstd::prelude::*;

use crate::state::{
    active_secs, active_seconds, check_durations_fit, decimal, fits_i64, push_decimal, ActiveTimer,
    TimeEntry, TodoItem,
};
use vstd::string::StringExecFns;

verus! {

/// Positions of the todos not yet done, in order: those a new timer may be
/// linked to.
pub open spec fn open_positions(ts: Seq<TodoItem>) -> Seq<usize>
    decreases ts.len(),
{
    if ts.len() == 0 {
        Seq::empty()
    } else if !ts.last().done {
        open_positions(ts.drop_last()).push((ts.len() - 1) as usize)
    } else {
        open_positions(ts.drop_last())
    }
}

/// Positions of the todos that are not done, in order.
pub fn open_todos(todos: &Vec<TodoItem>) -> (r: Vec<usize>)
    ensures
        r@ == open_positions(todos@),
        forall|k: int|
            0 <= k < r@.len() ==> (#[trigger] r@[k]) < todos@.len() && !todos@[r@[k] as int].done,
{
    let mut r: Vec<usize> = Vec::new();
    let mut i: usize = 0;
    while i < todos.len()
        invariant
            0 <= i <= todos.len(),
            r@ == open_positions(todos@.take(i as int)),
        decreases todos.len() - i,
    {
        assert(todos@.take(i + 1).drop_last() =~= todos@.take(i as int));
        if !todos[i].done {
            r.push(i);
        }
        i = i + 1;
    }
    assert(todos@.take(todos@.len() as int) =~= todos@);
    proof {
        lemma_open_positions(todos@);
    }
    r
}

/// Whether some todo has the id.
pub open spec fn has_todo(ts: Seq<TodoItem>, id: u32) -> bool {
    exists|i: int| 0 <= i < ts.len() && (#[trigger] ts[i]).id == id
}

/// Mark the todo with the given id as done. Gives whether there was one.
/// Nothing else changes, and no todo goes from done back to open.
pub fn mark_todo_done(todos: &mut Vec<TodoItem>, id: u32) -> (r: bool)
    ensures
        r == has_todo(old(todos)@, id),
        final(todos)@.len() == old(todos)@.len(),
        forall|i: int|
            0 <= i < old(todos)@.len() ==> {
                let t = old(todos)@[i];
                let u = #[trigger] final(todos)@[i];
                &&& u.id == t.id
                &&& u.text == t.text
                &&& u.created_at == t.created_at
                &&& u.done == (t.done || t.id == id)
            },
{
    let mut found = false;
    let mut i: usize = 0;
    while i < todos.len()
        invariant
            0 <= i <= todos.len(),
            todos@.len() == old(todos)@.len(),
            found == exists|k: int| 0 <= k < i && (#[trigger] old(todos)@[k]).id == id,
            forall|k: int|
                0 <= k < old(todos)@.len() ==> {
                    let t = old(todos)@[k];
                    let u = #[trigger] todos@[k];
                    &&& u.id == t.id
                    &&& u.text == t.text
                    &&& u.created_at == t.created_at
                    &&& u.done == (if k < i {
                        t.done || t.id == id
                    } else {
                        t.done
                    })
                },
        decreases todos.len() - i,
    {
        if todos[i].id == id {
            todos[i].done = true;
            found = true;
        }
        i = i + 1;
    }
    found
}

/// Once the todo linked to a stopped timer is marked done on confirmation,
/// it shows as done, and it is no longer among the open todos that a new
/// timer may be linked to.
pub proof fn lemma_done_leaves_open_list(before: Seq<TodoItem>, after: Seq<TodoItem>, id: u32)
    requires
        done_if(after, before, id, true),
        after.len() <= usize::MAX,
    ensures
        forall|i: int| 0 <= i < before.len() && before[i].id == id ==> (#[trigger] after[i]).done,
        forall|k: int|
            0 <= k < open_positions(after).len() ==> after[#[trigger] open_positions(after)[k] as int].id
                != id,
{
    lemma_open_positions(after);
    assert forall|k: int| 0 <= k < open_positions(after).len() implies after[
        #[trigger] open_positions(after)[k] as int
    ].id != id by {
        let p = open_positions(after)[k] as int;
        assert(before[p].id == after[p].id);
    }
}

proof fn lemma_open_positions(s: Seq<TodoItem>)
    requires
        s.len() <= usize::MAX,
    ensures
        forall|k: int|
            0 <= k < open_positions(s).len() ==> (#[trigger] open_positions(s)[k]) < s.len()
                && !s[open_positions(s)[k] as int].done,
    decreases s.len(),
{
    if s.len() > 0 {
        let p = s.drop_last();
        lemma_open_positions(p);
        let q = open_positions(s);
        assert forall|k: int| 0 <= k < q.len() implies (#[trigger] q[k]) < s.len() && !s[q[
            k
        ] as int].done by {
            if !s.last().done {
                assert(q == open_positions(p).push((s.len() - 1) as usize));
            } else {
                assert(q == open_positions(p));
            }
            if k < open_positions(p).len() {
                assert(q[k] == open_positions(p)[k]);
                assert(s[q[k] as int] == p[q[k] as int]);
            }
        }
    }
}

/// Sum of the active seconds of the log entries linked to the todo.
pub open spec fn todo_total(es: Seq<TimeEntry>, todo_id: u32) -> int
    decreases es.len(),
{
    if es.len() == 0 {
        0
    } else {
        todo_total(es.drop_last(), todo_id) + if es.last().todo_id == Some(todo_id) {
            es.last().active_secs as int
        } else {
            0
        }
    }
}

/// Time tracked against the todo in finished sessions: the sum of the
/// active seconds of the log entries linked to it, or `None` where that
/// sum leaves the range of `i64`.
pub fn get_todo_total_secs(entries: &Vec<TimeEntry>, todo_id: u32) -> (r: Option<i64>)
    ensures
        r == (if fits_i64(todo_total(entries@, todo_id)) {
            Some(todo_total(entries@, todo_id) as i64)
        } else {
            None::<i64>
        }),
{
    let mut acc: i128 = 0;
    let mut i: usize = 0;
    while i < entries.len()
        invariant
            0 <= i <= entries.len(),
            acc == todo_total(entries@.take(i as int), todo_id),
            -(i as int) * 0x8000_0000_0000_0000 <= acc <= (i as int) * 0x8000_0000_0000_0000,
        decreases entries.len() - i,
    {
        assert(entries@.take(i + 1).drop_last() =~= entries@.take(i as int));
        if entries[i].todo_id == Some(todo_id) {
            acc = acc + entries[i].active_secs as i128;
        }
        i = i + 1;
    }
    assert(entries@.take(entries@.len() as int) =~= entries@);
    if acc < i64::MIN as i128 || acc > i64::MAX as i128 {
        None
    } else {
        Some(acc as i64)
    }
}

/// Sum of the live active seconds, at `now`, of the timers linked to the todo.
pub open spec fn active_todo_total(ts: Seq<ActiveTimer>, todo_id: u32, now: i64) -> int
    decreases ts.len(),
{
    if ts.len() == 0 {
        0
    } else {
        active_todo_total(ts.drop_last(), todo_id, now) + if ts.last().todo_id == Some(todo_id) {
            active_secs(ts.last().started_at, ts.last().breaks@, now)
        } else {
            0
        }
    }
}

proof fn lemma_active_total_grows(ts: Seq<ActiveTimer>, todo_id: u32, now: i64, k: int)
    requires
        0 <= k <= ts.len(),
    ensures
        0 <= active_todo_total(ts.take(k), todo_id, now) <= active_todo_total(ts, todo_id, now),
    decreases ts.len(),
{
    if ts.len() > 0 {
        if k == ts.len() {
            assert(ts.take(k) =~= ts);
            lemma_active_total_grows(ts.drop_last(), todo_id, now, k - 1);
            assert(ts.drop_last().take(k - 1) =~= ts.drop_last());
        } else {
            assert(ts.drop_last().take(k) =~= ts.take(k));
            lemma_active_total_grows(ts.drop_last(), todo_id, now, k);
        }
    }
}

/// Time tracked against the todo in sessions still in flight: the sum of
/// the active seconds, at `now_ts`, of the active timers linked to it.
pub fn get_active_todo_secs(timers: &Vec<ActiveTimer>, todo_id: u32, now_ts: i64) -> (r: i64)
    requires
        forall|i: int|
            0 <= i < timers@.len() && (#[trigger] timers@[i]).todo_id == Some(todo_id)
                ==> timers@[i].fits_at(now_ts),
        fits_i64(active_todo_total(timers@, todo_id, now_ts)),
    ensures
        r == active_todo_total(timers@, todo_id, now_ts),
{
    let mut acc: i64 = 0;
    let mut i: usize = 0;
    while i < timers.len()
        invariant
            0 <= i <= timers.len(),
            acc == active_todo_total(timers@.take(i as int), todo_id, now_ts),
            forall|k: int|
                0 <= k < timers@.len() && (#[trigger] timers@[k]).todo_id == Some(todo_id)
                    ==> timers@[k].fits_at(now_ts),
            fits_i64(active_todo_total(timers@, todo_id, now_ts)),
        decreases timers.len() - i,
    {
        assert(timers@.take(i + 1).drop_last() =~= timers@.take(i as int));
        proof {
            lemma_active_total_grows(timers@, todo_id, now_ts, i + 1);
        }
        let t = &timers[i];
        if t.todo_id == Some(todo_id) {
            let a = active_seconds(t.started_at, &t.breaks, now_ts);
            acc = acc + a;
        }
        i = i + 1;
    }
    assert(timers@.take(timers@.len() as int) =~= timers@);
    acc
}

/// Every timer linked to the todo can be measured at `now`, and the sum
/// of their active seconds fits in an `i64`.
pub open spec fn active_todo_fits(ts: Seq<ActiveTimer>, todo_id: u32, now: i64) -> bool {
    &&& forall|i: int|
        0 <= i < ts.len() && (#[trigger] ts[i]).todo_id == Some(todo_id) ==> ts[i].fits_at(now)
    &&& fits_i64(active_todo_total(ts, todo_id, now))
}

/// Time tracked against the todo in sessions still in flight, or `None`
/// where a duration or the sum leaves the range of `i64`.
pub fn checked_active_todo_secs(timers: &Vec<ActiveTimer>, todo_id: u32, now_ts: i64) -> (r:
    Option<i64>)
    ensures
        r == (if active_todo_fits(timers@, todo_id, now_ts) {
            Some(active_todo_total(timers@, todo_id, now_ts) as i64)
        } else {
            None::<i64>
        }),
{
    let mut i: usize = 0;
    while i < timers.len()
        invariant
            0 <= i <= timers.len(),
            forall|k: int|
                0 <= k < i && (#[trigger] timers@[k]).todo_id == Some(todo_id) ==> timers@[k].fits_at(
                    now_ts,
                ),
        decreases timers.len() - i,
    {
        let t = &timers[i];
        if t.todo_id == Some(todo_id) && !check_durations_fit(t.started_at, &t.breaks, now_ts) {
            return None;
        }
        i = i + 1;
    }
    let mut acc: i128 = 0;
    let mut j: usize = 0;
    while j < timers.len()
        invariant
            0 <= j <= timers.len(),
            forall|k: int|
                0 <= k < timers@.len() && (#[trigger] timers@[k]).todo_id == Some(todo_id)
                    ==> timers@[k].fits_at(now_ts),
            acc == active_todo_total(timers@.take(j as int), todo_id, now_ts),
            0 <= acc <= i64::MAX,
        decreases timers.len() - j,
    {
        assert(timers@.take(j + 1).drop_last() =~= timers@.take(j as int));
        let t = &timers[j];
        if t.todo_id == Some(todo_id) {
            let a = active_seconds(t.started_at, &t.breaks, now_ts);
            acc = acc + a as i128;
            if acc > i64::MAX as i128 {
                proof {
                    lemma_active_total_grows(timers@, todo_id, now_ts, j + 1);
                }
                return None;
            }
        }
        j = j + 1;
    }
    assert(timers@.take(timers@.len() as int) =~= timers@);
    Some(acc as i64)
}

/// `u` is `t` with `done` set where `mark` holds, all else kept.
pub open spec fn done_if(u: Seq<TodoItem>, t: Seq<TodoItem>, id: u32, mark: bool) -> bool {
    &&& u.len() == t.len()
    &&& forall|i: int|
        0 <= i < t.len() ==> {
            let a = t[i];
            let b = #[trigger] u[i];
            &&& b.id == a.id
            &&& b.text == a.text
            &&& b.created_at == a.created_at
            &&& b.done == (a.done || (mark && a.id == id))
        }
}

/// After a linked timer stops, its todo becomes done where the user
/// confirmed; nothing else changes. Gives whether a todo was marked.
pub fn complete_linked_todo(entry: &TimeEntry, todos: &mut Vec<TodoItem>, confirmed: bool) -> (r:
    bool)
    ensures
        match entry.todo_id {
            Some(id) => {
                &&& done_if(final(todos)@, old(todos)@, id, confirmed)
                &&& r == (confirmed && has_todo(old(todos)@, id))
            },
            None => final(todos)@ == old(todos)@ && !r,
        },
{
    match entry.todo_id {
        Some(id) => {
            if confirmed {
                mark_todo_done(todos, id)
            } else {
                false
            }
        },
        None => false,
    }
}

/// Position of the first todo with the id.
pub fn find_todo(todos: &Vec<TodoItem>, id: u32) -> (r: Option<usize>)
    ensures
        match r {
            Some(i) => i < todos@.len() && todos@[i as int].id == id && forall|j: int|
                0 <= j < i ==> (#[trigger] todos@[j]).id != id,
            None => !has_todo(todos@, id),
        },
{
    let mut i: usize = 0;
    while i < todos.len()
        invariant
            0 <= i <= todos.len(),
            forall|j: int| 0 <= j < i ==> (#[trigger] todos@[j]).id != id,
        decreases todos.len() - i,
    {
        if todos[i].id == id {
            return Some(i);
        }
        i = i + 1;
    }
    None
}

/// How a linked todo is shown: `#id "text"` where the todo exists, the
/// bare `#id` where it was removed.
pub open spec fn todo_label_text(todos: Seq<TodoItem>, id: u32) -> Seq<char> {
    if has_todo(todos, id) {
        let i = choose|i: int|
            0 <= i < todos.len() && todos[i].id == id && forall|j: int|
                0 <= j < i ==> (#[trigger] todos[j]).id != id;
        seq!['#'] + decimal(id as nat) + seq![' ', '"'] + todos[i].text@ + seq!['"']
    } else {
        seq!['#'] + decimal(id as nat)
    }
}

/// The label of the todo a timer or entry is linked to.
pub fn todo_label(todos: &Vec<TodoItem>, id: u32) -> (r: String)
    ensures
        r@ == todo_label_text(todos@, id),
{
    let mut r = String::new();
    proof {
        reveal_strlit("#");
        reveal_strlit(" \"");
        reveal_strlit("\"");
    }
    r.append("#");
    push_decimal(id as u64, &mut r);
    match find_todo(todos, id) {
        Some(i) => {
            r.append(" \"");
            r.append(todos[i].text.as_str());
            r.append("\"");
            proof {
                let k = choose|k: int|
                    0 <= k < todos@.len() && todos@[k].id == id && forall|j: int|
                        0 <= j < k ==> (#[trigger] todos@[j]).id != id;
                if k < i {
                } else if i < k {
                    assert(todos@[i as int].id != id);
                }
                assert(k == i);
            }
            assert(r@ =~= todo_label_text(todos@, id));
        },
        None => {
            assert(r@ =~= todo_label_text(todos@, id));
        },
    }
    r
}

} // verus!
