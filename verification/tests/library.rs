use time_commander::aggregate::aggregate;
use time_commander::export::{history_csv, parse_history_csv};
use time_commander::helpers::format_duration;
use time_commander::models::{History, Record};
use time_commander::state::AppState;
use time_commander::store::{create_record, establish_connection, find_all_records, remove_record,
    run_migrations};
use time_commander::timestamp::parse_timestamp;

#[test]
fn format_duration_examples() {
    assert_eq!(format_duration(3666), "01:01:06");
    assert_eq!(format_duration(3), "00:00:03");
    assert_eq!(format_duration(0), "00:00:00");
    // Hours are not wrapped at twenty-four.
    assert_eq!(format_duration(90000), "25:00:00");
    assert_eq!(format_duration(362_399), "100:39:59");
}

#[test]
fn parse_timestamp_accepts_the_stored_shape() {
    assert_eq!(
        parse_timestamp("2024-01-01 09:00:00"),
        Some((20240101, 9 * 3600))
    );
    assert_eq!(parse_timestamp("1999-12-31 23:59:59"), Some((19991231, 86399)));
    assert_eq!(parse_timestamp(""), None);
    assert_eq!(parse_timestamp("2024-01-01"), None);
    assert_eq!(parse_timestamp("2024-13-01 09:00:00"), None);
    assert_eq!(parse_timestamp("2024-01-00 09:00:00"), None);
    assert_eq!(parse_timestamp("2024-01-01 24:00:00"), None);
    assert_eq!(parse_timestamp("2024-01-01T09:00:00"), None);
}

#[test]
fn aggregate_two_records_one_day() {
    let records = vec![
        Record::new(1800, "2024-01-01 09:00:00".to_string()),
        Record::new(900, "2024-01-01 13:00:00".to_string()),
    ];
    let out = aggregate(&records);
    assert_eq!(out.len(), 1);
    assert_eq!(out[0].record_date, "2024-01-01");
    assert_eq!(out[0].total_pauses, 1);
    assert_eq!(out[0].total_duration, 2700);
    assert_eq!(out[0].start_time, "09:00:00");
    assert_eq!(out[0].end_time, "13:15:00");
}

#[test]
fn aggregate_single_zero_record() {
    let records = vec![Record::new(0, "2024-02-02 10:00:00".to_string())];
    let out = aggregate(&records);
    assert_eq!(out.len(), 1);
    assert_eq!(out[0].record_date, "2024-02-02");
    assert_eq!(out[0].total_pauses, 0);
    assert_eq!(out[0].total_duration, 0);
    assert_eq!(out[0].start_time, "10:00:00");
    assert_eq!(out[0].end_time, "10:00:00");
}

#[test]
fn aggregate_empty_set() {
    let records: Vec<Record> = Vec::new();
    let out = aggregate(&records);
    assert_eq!(out.len(), 0);
}

#[test]
fn end_time_follows_the_latest_record_not_the_longest() {
    // The earlier record runs past the later one's end; the end time still
    // comes from the record that started last.
    let records = vec![
        Record::new(10000, "2024-01-01 09:00:00".to_string()),
        Record::new(60, "2024-01-01 10:00:00".to_string()),
    ];
    let out = aggregate(&records);
    assert_eq!(out.len(), 1);
    assert_eq!(out[0].end_time, "10:01:00");
}

#[test]
fn end_time_wraps_past_midnight() {
    let records = vec![Record::new(120, "2024-01-01 23:59:00".to_string())];
    let out = aggregate(&records);
    assert_eq!(out.len(), 1);
    assert_eq!(out[0].start_time, "23:59:00");
    assert_eq!(out[0].end_time, "00:01:00");
}

#[test]
fn aggregate_groups_by_date() {
    let records = vec![
        Record::new(60, "2024-01-02 08:00:00".to_string()),
        Record::new(120, "2024-01-01 09:00:00".to_string()),
        Record::new(180, "2024-01-02 10:00:00".to_string()),
    ];
    let mut out = aggregate(&records);
    out.sort_by(|a, b| a.record_date.cmp(&b.record_date));
    assert_eq!(out.len(), 2);
    assert_eq!(out[0].record_date, "2024-01-01");
    assert_eq!(out[0].total_pauses, 0);
    assert_eq!(out[0].total_duration, 120);
    assert_eq!(out[1].record_date, "2024-01-02");
    assert_eq!(out[1].total_pauses, 1);
    assert_eq!(out[1].total_duration, 240);
    assert_eq!(out[1].start_time, "08:00:00");
    assert_eq!(out[1].end_time, "10:03:00");
}

#[test]
fn aggregate_is_order_independent() {
    let a = vec![
        Record::new(60, "2024-01-02 08:00:00".to_string()),
        Record::new(120, "2024-01-01 09:00:00".to_string()),
        Record::new(180, "2024-01-02 10:00:00".to_string()),
    ];
    let b = vec![
        Record::new(180, "2024-01-02 10:00:00".to_string()),
        Record::new(120, "2024-01-01 09:00:00".to_string()),
        Record::new(60, "2024-01-02 08:00:00".to_string()),
    ];
    let mut out_a = aggregate(&a);
    let mut out_b = aggregate(&b);
    out_a.sort_by(|x, y| x.record_date.cmp(&y.record_date));
    out_b.sort_by(|x, y| x.record_date.cmp(&y.record_date));
    assert_eq!(out_a.len(), out_b.len());
    for (x, y) in out_a.iter().zip(out_b.iter()) {
        assert_eq!(x.record_date, y.record_date);
        assert_eq!(x.total_duration, y.total_duration);
        assert_eq!(x.total_pauses, y.total_pauses);
    }
}

#[test]
fn aggregate_malformed_timestamp_gives_empty_history() {
    let records = vec![
        Record::new(60, "2024-01-01 09:00:00".to_string()),
        Record::new(60, "not a timestamp".to_string()),
    ];
    let out = aggregate(&records);
    assert_eq!(out.len(), 0);
}

#[test]
fn export_renders_header_and_rows() {
    let records = vec![
        Record::new(1800, "2024-01-01 09:00:00".to_string()),
        Record::new(900, "2024-01-01 13:00:00".to_string()),
    ];
    let out = aggregate(&records);
    let text = history_csv(&out).expect("aggregated history must be exportable");
    assert_eq!(
        text,
        "Date,Start,End,Total,Pauses\n2024-01-01,09:00:00,13:15:00,00:45:00,1\n"
    );
}

#[test]
fn export_rejects_unclean_fields() {
    let row = History {
        total_pauses: 0,
        total_duration: 60,
        record_date: "2024,01,01".to_string(),
        start_time: "09:00:00".to_string(),
        end_time: "09:01:00".to_string(),
    };
    assert!(history_csv(&vec![row]).is_none());
    let row = History {
        total_pauses: -1,
        total_duration: 60,
        record_date: "2024-01-01".to_string(),
        start_time: "09:00:00".to_string(),
        end_time: "09:01:00".to_string(),
    };
    assert!(history_csv(&vec![row]).is_none());
}

#[test]
fn export_round_trip_reproduces_rows() {
    let records = vec![
        Record::new(1800, "2024-01-01 09:00:00".to_string()),
        Record::new(900, "2024-01-01 13:00:00".to_string()),
        Record::new(0, "2024-02-02 10:00:00".to_string()),
    ];
    let out = aggregate(&records);
    let text = history_csv(&out).expect("aggregated history must be exportable");
    let back = parse_history_csv(&text).expect("the exported text must parse");
    assert_eq!(back.len(), out.len());
    for (orig, parsed) in out.iter().zip(back.iter()) {
        assert_eq!(parsed.record_date, orig.record_date);
        assert_eq!(parsed.start_time, orig.start_time);
        assert_eq!(parsed.end_time, orig.end_time);
        assert_eq!(parsed.total_duration, orig.total_duration);
        assert_eq!(parsed.total_pauses, orig.total_pauses);
    }
}

#[test]
fn parse_rejects_malformed_exports() {
    assert!(parse_history_csv("").is_none());
    assert!(parse_history_csv("Date,Start,End,Total,Pauses").is_none());
    assert!(parse_history_csv("wrong header\n").is_none());
    assert!(
        parse_history_csv("Date,Start,End,Total,Pauses\n2024-01-01,09:00:00\n").is_none()
    );
    assert!(
        parse_history_csv("Date,Start,End,Total,Pauses\na,b,c,x,0\n").is_none()
    );
    assert!(parse_history_csv("Date,Start,End,Total,Pauses\n").is_some());
}

#[test]
fn start_twice_changes_nothing_after_the_first() {
    let mut state = AppState::default();
    state.start_timer();
    assert!(state.timer_running);
    assert_eq!(state.timer_logs.len(), 1);
    assert_eq!(state.timer_logs[0], "Timer started.");
    let date_before = state.start_date.clone();
    assert!(date_before.is_some());
    assert!(date_before.as_ref().unwrap().len() >= 19);
    state.start_timer();
    assert!(state.timer_running);
    assert_eq!(state.timer_logs.len(), 1);
    assert_eq!(state.start_date, date_before);
}

#[test]
fn stop_log_line_formats_the_elapsed_seconds() {
    let mut state = AppState::default();
    state.start_timer();
    let result = state.add_log(3);
    assert!(result.is_ok());
    assert!(!state.timer_running);
    assert_eq!(state.timer_logs.len(), 2);
    assert_eq!(state.timer_logs[1], "Timer stopped. Duration: 00:00:03.");
}

#[test]
fn stop_twice_persists_exactly_one_record() {
    let conn = establish_connection().expect("an in-memory store must open");
    run_migrations(&conn).expect("the migration must run");
    let mut state = AppState::default();
    state.start_timer();
    state.stop_timer(&conn);
    assert!(!state.timer_running);
    assert_eq!(state.timer_logs.len(), 2);
    assert!(state.timer_logs[1].starts_with("Timer stopped. Duration: "));
    // One record on today's date: one row, and zero pauses shows the row
    // aggregates exactly one record.
    assert_eq!(state.history.len(), 1);
    assert_eq!(state.history[0].total_pauses, 0);
    state.stop_timer(&conn);
    assert_eq!(state.timer_logs.len(), 2);
    let rows = find_all_records(&conn);
    assert_eq!(rows.len(), 1);
    assert_eq!(rows[0].total_pauses, 0);
}

#[test]
fn stop_reports_a_store_refusal_in_the_log() {
    // A connection without the record table refuses the insert; the timer
    // still stops, and the refusal is reported by one more log line.
    let conn = establish_connection().expect("an in-memory store must open");
    let mut state = AppState::default();
    state.start_timer();
    state.stop_timer(&conn);
    assert!(!state.timer_running);
    assert_eq!(state.timer_logs.len(), 3);
    assert!(state.timer_logs[1].starts_with("Timer stopped. Duration: "));
    assert_eq!(state.timer_logs[2], "Session record could not be persisted.");
    assert_eq!(state.history.len(), 0);
}

#[test]
fn add_record_persists_the_given_session() {
    let conn = establish_connection().expect("an in-memory store must open");
    run_migrations(&conn).expect("the migration must run");
    let mut state = AppState::default();
    state.start_timer();
    state.add_log(3).expect("the stop line must append");
    state
        .add_record(3, "2024-06-01 09:00:00".to_string(), &conn)
        .expect("insert must succeed");
    state.set_history(&conn);
    assert_eq!(state.timer_logs[1], "Timer stopped. Duration: 00:00:03.");
    assert_eq!(state.history.len(), 1);
    assert_eq!(state.history[0].record_date, "2024-06-01");
    assert_eq!(state.history[0].total_duration, 3);
    assert_eq!(state.history[0].start_time, "09:00:00");
    assert_eq!(state.history[0].end_time, "09:00:03");
}

#[test]
fn stop_without_start_changes_nothing() {
    let conn = establish_connection().expect("an in-memory store must open");
    run_migrations(&conn).expect("the migration must run");
    let mut state = AppState::default();
    state.stop_timer(&conn);
    assert!(!state.timer_running);
    assert_eq!(state.timer_logs.len(), 0);
    assert_eq!(find_all_records(&conn).len(), 0);
}

#[test]
fn store_round_trip_aggregates_inserted_records() {
    let conn = establish_connection().expect("an in-memory store must open");
    run_migrations(&conn).expect("the migration must run");
    create_record(&conn, &Record::new(1800, "2024-01-01 09:00:00".to_string()))
        .expect("insert must succeed");
    create_record(&conn, &Record::new(900, "2024-01-01 13:00:00".to_string()))
        .expect("insert must succeed");
    let rows = find_all_records(&conn);
    assert_eq!(rows.len(), 1);
    assert_eq!(rows[0].record_date, "2024-01-01");
    assert_eq!(rows[0].total_pauses, 1);
    assert_eq!(rows[0].total_duration, 2700);
    assert_eq!(rows[0].start_time, "09:00:00");
    assert_eq!(rows[0].end_time, "13:15:00");
}

#[test]
fn remove_record_deletes_by_identifier() {
    let conn = establish_connection().expect("an in-memory store must open");
    run_migrations(&conn).expect("the migration must run");
    create_record(&conn, &Record::new(60, "2024-01-01 09:00:00".to_string()))
        .expect("insert must succeed");
    assert_eq!(find_all_records(&conn).len(), 1);
    let doomed = Record {
        id: Some(1),
        duration: 60,
        created_at: "2024-01-01 09:00:00".to_string(),
    };
    remove_record(&conn, &doomed).expect("delete must succeed");
    assert_eq!(find_all_records(&conn).len(), 0);
}

#[test]
fn record_new_leaves_the_identifier_unassigned() {
    let record = Record::new(42, "2024-05-05 05:05:05".to_string());
    assert_eq!(record.id, None);
    assert_eq!(record.duration, 42);
    assert_eq!(record.created_at, "2024-05-05 05:05:05");
}
