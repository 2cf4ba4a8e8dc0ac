use time_logging::state::{active_seconds, total_break_secs, ActiveTimer, Break, TimerState};
use time_logging::timer::{
    get_running, pause, paused_indices, resume, start, status, stop, switch, StartOutcome,
    SwitchOutcome, TimerError,
};

fn timer(id: u32, state: TimerState, started_at: i64, breaks: Vec<Break>) -> ActiveTimer {
    ActiveTimer {
        id: Some(id),
        name: format!("t{id}"),
        category: "work".to_string(),
        started_at,
        state,
        breaks,
        todo_id: None,
    }
}

fn running_count(v: &[ActiveTimer]) -> usize {
    v.iter().filter(|t| t.state == TimerState::Running).count()
}

#[test]
fn pause_resume_stop_accounts_active_and_break_time() {
    let mut v: Vec<ActiveTimer> = Vec::new();
    let out = start(&mut v, "coding".to_string(), "work".to_string(), None, 0, 0, false);
    assert_eq!(out, StartOutcome::Started { paused: None });
    assert_eq!(pause(&mut v, 100), Ok(0));
    assert_eq!(v[0].breaks, vec![Break { start_ts: 100, end_ts: 0 }]);
    assert_eq!(resume(&mut v, 0, 150), Ok(0));
    assert_eq!(v[0].breaks, vec![Break { start_ts: 100, end_ts: 150 }]);
    let e = stop(&mut v, 200).unwrap();
    assert!(v.is_empty());
    assert_eq!(e.name, "coding");
    assert_eq!(e.category, "work");
    assert_eq!(e.started_at, 0);
    assert_eq!(e.ended_at, 200);
    assert_eq!(e.active_secs, 150);
    assert_eq!(total_break_secs(&e.breaks, e.ended_at), 50);
}

#[test]
fn switch_pauses_running_and_resumes_chosen() {
    let mut v = vec![
        timer(1, TimerState::Running, 0, vec![]),
        timer(2, TimerState::Paused, 10, vec![Break { start_ts: 20, end_ts: 0 }]),
    ];
    let out = switch(&mut v, 0, 500);
    assert_eq!(out, Ok(SwitchOutcome::Switched { paused: Some(0), resumed: 1 }));
    assert_eq!(v[0].state, TimerState::Paused);
    assert_eq!(v[0].breaks, vec![Break { start_ts: 500, end_ts: 0 }]);
    assert_eq!(v[1].state, TimerState::Running);
    assert_eq!(v[1].breaks, vec![Break { start_ts: 20, end_ts: 500 }]);
    assert_eq!(running_count(&v), 1);
}

#[test]
fn switch_on_concrete_two_timer_set() {
    let mut v = vec![
        timer(1, TimerState::Running, 0, vec![]),
        timer(2, TimerState::Paused, 10, vec![Break { start_ts: 50, end_ts: 0 }]),
    ];
    assert_eq!(switch(&mut v, 0, 100), Ok(SwitchOutcome::Switched { paused: Some(0), resumed: 1 }));
    assert_eq!(v[0].breaks, vec![Break { start_ts: 100, end_ts: 0 }]);
    assert_eq!(v[1].breaks, vec![Break { start_ts: 50, end_ts: 100 }]);
    assert_eq!(get_running(&v), Some(1));
}

#[test]
fn start_pauses_at_its_own_time() {
    let mut v = vec![timer(1, TimerState::Running, 0, vec![])];
    let out = start(&mut v, "n".to_string(), "c".to_string(), None, 40, 55, true);
    assert_eq!(out, StartOutcome::Started { paused: Some(0) });
    assert_eq!(v[0].breaks, vec![Break { start_ts: 40, end_ts: 0 }]);
    assert_eq!(v[1].started_at, 55);
}

#[test]
fn resume_with_no_timers_is_not_found() {
    let mut v: Vec<ActiveTimer> = Vec::new();
    assert_eq!(resume(&mut v, 0, 10), Err(TimerError::NotFound));
    assert!(v.is_empty());
}

#[test]
fn resume_while_running_is_conflict() {
    let mut v = vec![
        timer(1, TimerState::Running, 0, vec![]),
        timer(2, TimerState::Paused, 0, vec![Break { start_ts: 5, end_ts: 0 }]),
    ];
    assert_eq!(resume(&mut v, 0, 10), Err(TimerError::Conflict));
    assert_eq!(v[1].state, TimerState::Paused);
}

#[test]
fn resume_picks_among_several_paused_in_order() {
    let mut v = vec![
        timer(1, TimerState::Paused, 0, vec![Break { start_ts: 5, end_ts: 0 }]),
        timer(2, TimerState::Paused, 0, vec![Break { start_ts: 6, end_ts: 0 }]),
        timer(3, TimerState::Paused, 0, vec![Break { start_ts: 7, end_ts: 0 }]),
    ];
    assert_eq!(paused_indices(&v), vec![0, 1, 2]);
    assert_eq!(resume(&mut v, 3, 10), Err(TimerError::NotFound));
    assert_eq!(resume(&mut v, 1, 10), Ok(1));
    assert_eq!(v[1].state, TimerState::Running);
    assert_eq!(v[1].breaks[0].end_ts, 10);
    assert_eq!(v[0].breaks[0].end_ts, 0);
}

#[test]
fn resume_single_paused_ignores_pick() {
    let mut v = vec![timer(4, TimerState::Paused, 0, vec![Break { start_ts: 5, end_ts: 0 }])];
    assert_eq!(resume(&mut v, 7, 9), Ok(0));
    assert_eq!(v[0].breaks, vec![Break { start_ts: 5, end_ts: 9 }]);
}

#[test]
fn switch_with_nothing_paused_changes_nothing() {
    let mut v = vec![timer(1, TimerState::Running, 0, vec![])];
    assert_eq!(switch(&mut v, 0, 9), Ok(SwitchOutcome::NothingToSwitch));
    assert_eq!(v[0].state, TimerState::Running);
    assert!(v[0].breaks.is_empty());
    let mut p = vec![timer(1, TimerState::Paused, 0, vec![Break { start_ts: 1, end_ts: 0 }])];
    assert_eq!(switch(&mut p, 1, 9), Err(TimerError::NotFound));
}

#[test]
fn start_declined_leaves_set_unchanged() {
    let mut v = vec![timer(1, TimerState::Running, 0, vec![])];
    let out = start(&mut v, "b".to_string(), "c".to_string(), Some(3), 50, 50, false);
    assert_eq!(out, StartOutcome::Aborted);
    assert_eq!(v.len(), 1);
    assert_eq!(v[0].state, TimerState::Running);
}

#[test]
fn start_confirmed_pauses_running_first() {
    let mut v = vec![timer(1, TimerState::Running, 0, vec![])];
    let out = start(&mut v, "b".to_string(), "c".to_string(), Some(3), 50, 50, true);
    assert_eq!(out, StartOutcome::Started { paused: Some(0) });
    assert_eq!(v.len(), 2);
    assert_eq!(v[0].state, TimerState::Paused);
    assert_eq!(v[0].breaks, vec![Break { start_ts: 50, end_ts: 0 }]);
    assert_eq!(v[1].id, None);
    assert_eq!(v[1].name, "b");
    assert_eq!(v[1].todo_id, Some(3));
    assert_eq!(v[1].started_at, 50);
    assert_eq!(get_running(&v), Some(1));
    assert_eq!(running_count(&v), 1);
}

#[test]
fn stop_and_pause_without_running_are_not_found() {
    let mut v = vec![timer(1, TimerState::Paused, 0, vec![Break { start_ts: 1, end_ts: 0 }])];
    assert!(matches!(stop(&mut v, 10), Err(TimerError::NotFound)));
    assert_eq!(pause(&mut v, 10), Err(TimerError::NotFound));
    assert_eq!(v.len(), 1);
}

#[test]
fn operations_keep_at_most_one_running() {
    let mut v: Vec<ActiveTimer> = Vec::new();
    start(&mut v, "a".to_string(), "x".to_string(), None, 0, 0, true);
    start(&mut v, "b".to_string(), "x".to_string(), None, 10, 10, true);
    assert_eq!(running_count(&v), 1);
    switch(&mut v, 0, 20).unwrap();
    assert_eq!(running_count(&v), 1);
    assert_eq!(get_running(&v), Some(0));
    pause(&mut v, 30).unwrap();
    assert_eq!(running_count(&v), 0);
    resume(&mut v, 1, 40).unwrap();
    assert_eq!(running_count(&v), 1);
    stop(&mut v, 50).unwrap();
    assert_eq!(running_count(&v), 0);
    assert_eq!(v.len(), 1);
}

#[test]
fn status_twice_gives_same_durations() {
    let v = vec![
        timer(1, TimerState::Running, 0, vec![Break { start_ts: 10, end_ts: 30 }]),
        timer(2, TimerState::Paused, 5, vec![Break { start_ts: 50, end_ts: 0 }]),
    ];
    let a = status(&v, 100);
    let b = status(&v, 100);
    assert_eq!(a, b);
    assert_eq!(a[0].active_secs, 80);
    assert_eq!(a[0].break_secs, 20);
    assert!(a[0].running);
    assert_eq!(a[1].active_secs, 45);
    assert_eq!(a[1].break_secs, 50);
    assert_eq!(a[1].id, Some(2));
}

#[test]
fn active_and_break_time_partition_elapsed_time() {
    let breaks = vec![Break { start_ts: 10, end_ts: 20 }, Break { start_ts: 40, end_ts: 0 }];
    assert_eq!(total_break_secs(&breaks, 100), 70);
    assert_eq!(active_seconds(0, &breaks, 100), 30);
    assert_eq!(active_seconds(0, &breaks, 100) + total_break_secs(&breaks, 100), 100);
    assert_eq!(total_break_secs(&[].to_vec(), 100), 0);
}

#[test]
fn active_time_is_clamped_at_zero() {
    let breaks = vec![Break { start_ts: 0, end_ts: 500 }];
    assert_eq!(active_seconds(100, &breaks, 200), 0);
}
