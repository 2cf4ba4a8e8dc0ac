use time_logging::codec::{decode_breaks, encode_breaks};
use time_logging::state::{format_duration, ActiveTimer, Break, TimeEntry, TimerState, TodoItem};
use time_logging::timer::{log, log_totals, log_window, truncate};
use time_logging::todo::{
    checked_active_todo_secs, complete_linked_todo, find_todo, get_active_todo_secs,
    get_todo_total_secs, mark_todo_done, open_todos, todo_label,
};

fn entry(id: u32, started_at: i64, active_secs: i64, todo_id: Option<u32>) -> TimeEntry {
    TimeEntry {
        id,
        name: format!("e{id}"),
        category: "c".to_string(),
        started_at,
        ended_at: started_at + active_secs,
        active_secs,
        breaks: vec![],
        todo_id,
    }
}

fn todo(id: u32, text: &str, done: bool) -> TodoItem {
    TodoItem { id, text: text.to_string(), done, created_at: 0 }
}

#[test]
fn round_trip_of_break_lists() {
    let cases = vec![
        vec![],
        vec![Break { start_ts: 100, end_ts: 150 }],
        vec![Break { start_ts: 100, end_ts: 150 }, Break { start_ts: 300, end_ts: 0 }],
        vec![Break { start_ts: 0, end_ts: 0 }],
        vec![Break { start_ts: -7, end_ts: i64::MAX }, Break { start_ts: i64::MIN, end_ts: 1 }],
        vec![Break { start_ts: 1_700_000_000, end_ts: 1_700_000_600 }; 40],
    ];
    for bs in cases {
        let bytes = encode_breaks(&bs);
        assert_eq!(decode_breaks(&bytes), bs);
    }
}

#[test]
fn encoding_is_protobuf_wire_format() {
    assert_eq!(encode_breaks(&[]), Vec::<u8>::new());
    assert_eq!(encode_breaks(&[Break { start_ts: 100, end_ts: 0 }]), vec![0x0A, 0x02, 0x08, 0x64]);
    assert_eq!(
        encode_breaks(&[Break { start_ts: 300, end_ts: 1 }]),
        vec![0x0A, 0x05, 0x08, 0xAC, 0x02, 0x10, 0x01]
    );
    assert_eq!(encode_breaks(&[Break { start_ts: 0, end_ts: 0 }]), vec![0x0A, 0x00]);
    let mut neg = vec![0x0A, 0x0B, 0x08];
    neg.extend([0xFF; 9]);
    neg.push(0x01);
    assert_eq!(encode_breaks(&[Break { start_ts: -1, end_ts: 0 }]), neg);
}

#[test]
fn varint_matches_prost() {
    for v in [0u64, 1, 127, 128, 300, 1 << 35, u64::MAX] {
        let mut expected = Vec::new();
        prost::encoding::encode_varint(v, &mut expected);
        let b = Break { start_ts: v as i64, end_ts: 0 };
        let bytes = encode_breaks(&[b]);
        if v != 0 {
            assert_eq!(&bytes[3..], &expected[..]);
        }
    }
}

#[test]
fn malformed_bytes_decode_to_empty() {
    assert!(decode_breaks(&[0x0A]).is_empty());
    assert!(decode_breaks(&[0x12, 0x00]).is_empty());
    assert!(decode_breaks(&[0x0A, 0x02, 0x08, 0x80]).is_empty());
    assert!(decode_breaks(&[0x0A, 0x02, 0x08, 0x00]).is_empty());
    assert!(decode_breaks(&[0x0A, 0x02, 0x08, 0x64, 0x0A]).is_empty());
    assert!(decode_breaks(&[]).is_empty());
}

#[test]
fn format_duration_suppresses_leading_zero_units() {
    assert_eq!(format_duration(3665), "1h 01m 05s");
    assert_eq!(format_duration(3600), "1h 00m 00s");
    assert_eq!(format_duration(123), "2m 03s");
    assert_eq!(format_duration(600), "10m 00s");
    assert_eq!(format_duration(7), "7s");
    assert_eq!(format_duration(0), "0s");
    assert_eq!(format_duration(-5), "-5s");
    assert_eq!(format_duration(-120), "0s");
    assert_eq!(format_duration(90061), "25h 01m 01s");
}

#[test]
fn truncate_cuts_with_ellipsis() {
    assert_eq!(truncate("abcdef", 4), "abc…");
    assert_eq!(truncate("abcd", 4), "abcd");
    assert_eq!(truncate("", 3), "");
    assert_eq!(truncate("éééé", 5), "éé…");
    assert_eq!(truncate("éé", 5), "éé");
}

#[test]
fn log_today_keeps_entries_from_midnight_on() {
    let midnight = 1_700_000_000;
    let es = vec![
        entry(1, midnight - 1, 10, None),
        entry(2, midnight, 20, None),
        entry(3, midnight + 3600, 30, None),
    ];
    let since = log_window(true, false, midnight, midnight + 7200);
    assert_eq!(since, Some(midnight));
    assert_eq!(log(&es, since), vec![1, 2]);
    assert_eq!(log(&es, None), vec![0, 1, 2]);
}

#[test]
fn log_week_window_is_seven_days_back() {
    assert_eq!(log_window(false, true, 0, 1_000_000), Some(1_000_000 - 604_800));
    assert_eq!(log_window(false, false, 0, 1_000_000), None);
}

#[test]
fn stopping_linked_timer_then_marking_done_closes_todo() {
    let mut todos = vec![todo(1, "a", false), todo(3, "write tests", false), todo(4, "b", true)];
    assert_eq!(open_todos(&todos), vec![0, 1]);
    let mut timers = vec![ActiveTimer {
        id: Some(9),
        name: "write tests".to_string(),
        category: "dev".to_string(),
        started_at: 0,
        state: TimerState::Running,
        breaks: vec![],
        todo_id: Some(3),
    }];
    let e = time_logging::timer::stop(&mut timers, 60).unwrap();
    assert_eq!(e.todo_id, Some(3));
    let mut declined = todos.clone();
    assert!(!complete_linked_todo(&e, &mut declined, false));
    assert_eq!(declined, todos);
    assert!(complete_linked_todo(&e, &mut todos, true));
    assert!(todos[1].done);
    assert_eq!(todos[1].text, "write tests");
    assert!(!todos[0].done);
    assert_eq!(open_todos(&todos), vec![0]);
    assert!(!mark_todo_done(&mut todos, 42));
}

#[test]
fn todo_totals_sum_linked_time() {
    let es = vec![entry(1, 0, 100, Some(3)), entry(2, 0, 50, None), entry(3, 0, 25, Some(3))];
    assert_eq!(get_todo_total_secs(&es, 3), Some(125));
    assert_eq!(get_todo_total_secs(&es, 8), Some(0));
    let big = vec![entry(1, 0, i64::MAX, Some(1)), entry(2, 0, 1, Some(1))];
    assert_eq!(get_todo_total_secs(&big, 1), None);
    let timers = vec![
        ActiveTimer {
            id: Some(1),
            name: "x".to_string(),
            category: "y".to_string(),
            started_at: 0,
            state: TimerState::Paused,
            breaks: vec![Break { start_ts: 40, end_ts: 0 }],
            todo_id: Some(3),
        },
        ActiveTimer {
            id: Some(2),
            name: "z".to_string(),
            category: "y".to_string(),
            started_at: 10,
            state: TimerState::Running,
            breaks: vec![],
            todo_id: Some(3),
        },
    ];
    assert_eq!(get_active_todo_secs(&timers, 3, 100), 130);
    assert_eq!(get_active_todo_secs(&timers, 5, 100), 0);
    assert_eq!(checked_active_todo_secs(&timers, 3, 100), Some(130));
    assert_eq!(checked_active_todo_secs(&timers, 5, 100), Some(0));
    let mut far = timers.clone();
    far[1].started_at = i64::MIN;
    assert_eq!(checked_active_todo_secs(&far, 3, 100), None);
}

#[test]
fn log_totals_sum_active_and_break_time() {
    let mut a = entry(1, 0, 100, None);
    a.ended_at = 160;
    a.breaks = vec![Break { start_ts: 20, end_ts: 50 }, Break { start_ts: 130, end_ts: 0 }];
    let b = entry(2, 500, 40, None);
    assert_eq!(log_totals(&vec![a.clone(), b]), Some((140, 60)));
    assert_eq!(log_totals(&vec![]), Some((0, 0)));
    let huge = entry(3, 0, i64::MAX, None);
    assert_eq!(log_totals(&vec![huge.clone(), huge]), None);
}

#[test]
fn todo_label_shows_text_or_bare_id() {
    let todos = vec![todo(3, "write tests", false), todo(12, "x", true)];
    assert_eq!(todo_label(&todos, 3), "#3 \"write tests\"");
    assert_eq!(todo_label(&todos, 12), "#12 \"x\"");
    assert_eq!(todo_label(&todos, 40), "#40");
    assert_eq!(find_todo(&todos, 12), Some(1));
    assert_eq!(find_todo(&todos, 5), None);
}

#[test]
fn log_lists_in_given_id_order() {
    let es = vec![entry(1, 300, 1, None), entry(2, 100, 1, None), entry(5, 200, 1, None)];
    assert_eq!(log(&es, Some(150)), vec![0, 2]);
}
