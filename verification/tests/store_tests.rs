use worktrack::parser::Session;
use worktrack::store::{Store, StoreError};

fn utc(s: &str) -> i64 {
    s.parse::<chrono::DateTime<chrono::Utc>>().unwrap().timestamp()
}

fn day_number(date: chrono::NaiveDate) -> i64 {
    date.signed_duration_since(chrono::NaiveDate::from_ymd_opt(1970, 1, 1).unwrap()).num_days()
}

fn make_session(start: &str, end: &str, duration_secs: i64) -> Session {
    Session {
        start: utc(start),
        end: utc(end),
        duration: duration_secs,
        project: "/work/test".to_string(),
        input_tokens: 0,
        output_tokens: 0,
        cache_creation_input_tokens: 0,
        cache_read_input_tokens: 0,
    }
}

fn all_sessions(store: &Store) -> Vec<Session> {
    store.query_range(i64::MIN, i64::MAX)
}

#[test]
fn upsert_is_idempotent() {
    let mut store = Store::new();
    let session = make_session("2026-02-04T10:00:00Z", "2026-02-04T10:30:00Z", 1800);

    store.upsert("abc123/session-1.jsonl", &session);
    store.upsert("abc123/session-1.jsonl", &session);

    assert_eq!(all_sessions(&store).len(), 1);
}

#[test]
fn upsert_overwrites_active_session() {
    let mut store = Store::new();

    let initial = make_session("2026-02-04T10:00:00Z", "2026-02-04T10:30:00Z", 1800);
    store.upsert("abc123/session-1.jsonl", &initial);

    let updated = make_session("2026-02-04T10:00:00Z", "2026-02-04T10:45:00Z", 2700);
    store.upsert("abc123/session-1.jsonl", &updated);

    let rows = all_sessions(&store);
    assert_eq!(rows.len(), 1);
    assert_eq!(rows[0].end, utc("2026-02-04T10:45:00Z"));
    assert_eq!(rows[0].duration, 2700);
}

#[test]
fn date_column_for_midnight_spanning_session() {
    let mut store = Store::new();

    // 24h apart -- guaranteed different local dates in any timezone.
    // Verifies that the date is derived from the start, not the end.
    let session = make_session("2026-02-03T12:00:00Z", "2026-02-04T12:00:00Z", 86400);
    store.upsert("abc123/session-1.jsonl", &session);

    let date = store.session_date("abc123/session-1.jsonl").unwrap();

    let start: chrono::DateTime<chrono::Utc> = "2026-02-03T12:00:00Z".parse().unwrap();
    let expected = day_number(start.with_timezone(&chrono::Local).date_naive());
    assert_eq!(date, expected);
}

// --- query_range ---------------------------------------------------------

#[test]
fn query_range_returns_sessions_overlapping_range() {
    let mut store = Store::new();

    let session = Session {
        start: utc("2026-02-04T10:00:00Z"),
        end: utc("2026-02-04T10:30:00Z"),
        duration: 1800,
        project: "/work/test".to_string(),
        input_tokens: 100,
        output_tokens: 50,
        cache_creation_input_tokens: 200,
        cache_read_input_tokens: 300,
    };
    store.upsert("proj/session-1.jsonl", &session);

    let results = store.query_range(utc("2026-02-04T00:00:00Z"), utc("2026-02-05T00:00:00Z"));

    assert_eq!(results.len(), 1);
    assert_eq!(results[0].project, "/work/test");
    assert_eq!(results[0].start, session.start);
    assert_eq!(results[0].end, session.end);
    assert_eq!(results[0].duration, 1800);
    assert_eq!(results[0].input_tokens, 100);
    assert_eq!(results[0].output_tokens, 50);
    assert_eq!(results[0].cache_creation_input_tokens, 200);
    assert_eq!(results[0].cache_read_input_tokens, 300);
}

#[test]
fn query_range_includes_session_starting_before_range() {
    let mut store = Store::new();

    // Starts 30m before range, ends 30m into range
    let session = make_session("2026-02-03T23:30:00Z", "2026-02-04T00:30:00Z", 3600);
    store.upsert("proj/session-1.jsonl", &session);

    let results = store.query_range(utc("2026-02-04T00:00:00Z"), utc("2026-02-05T00:00:00Z"));

    assert_eq!(results.len(), 1);
}

#[test]
fn query_range_includes_session_ending_after_range() {
    let mut store = Store::new();

    // Starts 30m before range end, ends 30m after range end
    let session = make_session("2026-02-04T23:30:00Z", "2026-02-05T00:30:00Z", 3600);
    store.upsert("proj/session-1.jsonl", &session);

    let results = store.query_range(utc("2026-02-04T00:00:00Z"), utc("2026-02-05T00:00:00Z"));

    assert_eq!(results.len(), 1);
}

#[test]
fn query_range_excludes_session_entirely_outside_range() {
    let mut store = Store::new();

    // Session entirely on Feb 3, query is Feb 4
    let session = make_session("2026-02-03T10:00:00Z", "2026-02-03T10:30:00Z", 1800);
    store.upsert("proj/session-1.jsonl", &session);

    let results = store.query_range(utc("2026-02-04T00:00:00Z"), utc("2026-02-05T00:00:00Z"));

    assert_eq!(results.len(), 0);
}

#[test]
fn query_range_midnight_spanning_session_in_both_adjacent_days() {
    let mut store = Store::new();

    // Spans midnight: starts Feb 3 23:30, ends Feb 4 00:30
    let session = make_session("2026-02-03T23:30:00Z", "2026-02-04T00:30:00Z", 3600);
    store.upsert("proj/session-1.jsonl", &session);

    let feb3 = utc("2026-02-03T00:00:00Z");
    let feb4 = utc("2026-02-04T00:00:00Z");
    let feb5 = utc("2026-02-05T00:00:00Z");

    let results = store.query_range(feb3, feb4);
    assert_eq!(results.len(), 1, "session visible from Feb 3");

    let results = store.query_range(feb4, feb5);
    assert_eq!(results.len(), 1, "session visible from Feb 4");
}

#[test]
fn query_range_empty_range_returns_empty() {
    let mut store = Store::new();

    // Session on Feb 4, query is Feb 5 -- nothing there
    let session = make_session("2026-02-04T10:00:00Z", "2026-02-04T10:30:00Z", 1800);
    store.upsert("proj/session-1.jsonl", &session);

    let results = store.query_range(utc("2026-02-05T00:00:00Z"), utc("2026-02-06T00:00:00Z"));

    assert_eq!(results.len(), 0);
}

#[test]
fn query_range_boundary_is_half_open() {
    let mut store = Store::new();

    // A session returns exactly when start < range_end and end >= range_start.
    let session = make_session("2026-02-04T10:00:00Z", "2026-02-04T11:00:00Z", 3600);
    store.upsert("proj/session-1.jsonl", &session);

    // end == range_start: still included (end >= range_start).
    assert_eq!(store.query_range(utc("2026-02-04T11:00:00Z"), utc("2026-02-04T12:00:00Z")).len(), 1);
    // start == range_end: excluded (start < range_end fails).
    assert_eq!(store.query_range(utc("2026-02-04T09:00:00Z"), utc("2026-02-04T10:00:00Z")).len(), 0);
}

// --- earliest session and sync marks --------------------------------------

#[test]
fn earliest_session_date_is_local_date_of_minimum_start() {
    let mut store = Store::new();
    assert!(store.earliest_session_date().is_none());

    store.upsert("a", &make_session("2026-02-05T10:00:00Z", "2026-02-05T11:00:00Z", 3600));
    store.upsert("b", &make_session("2026-02-03T08:00:00Z", "2026-02-03T09:00:00Z", 3600));
    store.upsert("c", &make_session("2026-02-04T08:00:00Z", "2026-02-04T09:00:00Z", 3600));

    let earliest_start: chrono::DateTime<chrono::Utc> = "2026-02-03T08:00:00Z".parse().unwrap();
    let expected = day_number(earliest_start.with_timezone(&chrono::Local).date_naive());
    assert_eq!(store.earliest_session_date(), Some(expected));
}

#[test]
fn day_marks_read_back_and_do_not_duplicate() {
    let mut store = Store::new();
    let day = 20000;

    assert!(!store.is_day_synced(day, "ws-1"));
    assert!(store.mark_day_synced(day, "ws-1").is_ok());
    assert!(store.is_day_synced(day, "ws-1"));

    // Marking the same key again is an error; the first mark stands.
    assert_eq!(store.mark_day_synced(day, "ws-1"), Err(StoreError::DuplicateKey));
    assert!(store.is_day_synced(day, "ws-1"));

    // Other keys are independent.
    assert!(!store.is_day_synced(day + 1, "ws-1"));
    assert!(!store.is_day_synced(day, "ws-2"));
}

#[test]
fn entry_marks_read_back_and_keys_are_independent() {
    let mut store = Store::new();
    let day = 20000;

    assert!(!store.is_entry_synced(day, "ws-1", "proj-a"));
    assert!(store.mark_entry_synced(day, "ws-1", "proj-a", "entry-1").is_ok());
    assert!(store.is_entry_synced(day, "ws-1", "proj-a"));

    // Distinct keys are unaffected.
    assert!(!store.is_entry_synced(day, "ws-1", "proj-b"));
    assert!(!store.is_entry_synced(day, "ws-2", "proj-a"));
    assert!(!store.is_entry_synced(day + 1, "ws-1", "proj-a"));

    // Re-marking the same key is refused.
    assert_eq!(
        store.mark_entry_synced(day, "ws-1", "proj-a", "entry-2"),
        Err(StoreError::DuplicateKey)
    );
}
