use worktrack::parser::Session;
use worktrack::sync::{
    allocate, compute_allocations, is_weekday, work_day_boundaries, ProjectMapping, SyncConfig,
    SyncError,
};

fn session(project: &str, duration_secs: i64) -> Session {
    Session {
        start: utc("2026-02-04T10:00:00Z"),
        end: utc("2026-02-04T10:00:00Z"),
        duration: duration_secs,
        project: project.to_string(),
        input_tokens: 0,
        output_tokens: 0,
        cache_creation_input_tokens: 0,
        cache_read_input_tokens: 0,
    }
}

fn utc(s: &str) -> i64 {
    s.parse::<chrono::DateTime<chrono::Utc>>().unwrap().timestamp()
}

fn mapping(pairs: &[(&str, &str)]) -> ProjectMapping {
    let mut m = ProjectMapping::new();
    for (k, v) in pairs {
        m.insert(k.to_string(), v.to_string());
    }
    m
}

// Work day: 09:00-17:00 UTC on 2026-02-04 (8h = 28800s).
// All tests call compute_allocations directly to avoid local-to-UTC timezone
// dependency.
const START: &str = "2026-02-04T09:00:00Z";
const END: &str = "2026-02-04T17:00:00Z";
const WORK_DAY_SECS: i64 = 28800;

#[test]
fn zero_sessions_returns_empty() {
    let result = compute_allocations(
        &vec![],
        &mapping(&[("/work/foo", "proj-foo")]),
        &Some("proj-other".into()),
        utc(START),
        utc(END),
    );
    assert!(result.allocations.is_empty());
    assert!(result.skipped.is_empty());
}

#[test]
fn single_mapped_project_fills_entire_work_day() {
    let sessions = vec![session("/work/myapp", 3600)];
    let result = compute_allocations(
        &sessions,
        &mapping(&[("/work/myapp", "proj-myapp")]),
        &Some("proj-other".into()),
        utc(START),
        utc(END),
    );

    assert_eq!(result.allocations.len(), 1);
    assert_eq!(result.allocations[0].project_id, "proj-myapp");
    assert_eq!(result.allocations[0].start, utc(START));
    assert_eq!(result.allocations[0].end, utc(END));
    assert!(result.skipped.is_empty());
}

#[test]
fn two_projects_split_proportionally() {
    // 3h + 1h tracked -> 3:1 ratio -> 6h + 2h on 8h work day.
    let sessions = vec![
        session("/work/alpha", 10800), // 3h
        session("/work/beta", 3600),   // 1h
    ];

    let result = compute_allocations(
        &sessions,
        &mapping(&[("/work/alpha", "proj-a"), ("/work/beta", "proj-b")]),
        &Some("proj-other".into()),
        utc(START),
        utc(END),
    );

    assert_eq!(result.allocations.len(), 2);
    // Sorted by project_id: proj-a, proj-b.
    assert_eq!(result.allocations[0].project_id, "proj-a");
    assert_eq!(result.allocations[0].start, utc(START));
    assert_eq!(result.allocations[0].end, utc("2026-02-04T15:00:00Z")); // 09:00 + 6h
    assert_eq!(result.allocations[1].project_id, "proj-b");
    assert_eq!(result.allocations[1].start, utc("2026-02-04T15:00:00Z"));
    assert_eq!(result.allocations[1].end, utc(END)); // 15:00 + 2h
    assert!(result.skipped.is_empty());
}

#[test]
fn unmapped_projects_aggregate_into_other() {
    // 2h mapped + 2h unmapped, Other enabled -> 1:1 ratio -> 4h each.
    let sessions = vec![
        session("/work/mapped", 7200),  // 2h
        session("/work/unknown", 7200), // 2h, unmapped
    ];

    let result = compute_allocations(
        &sessions,
        &mapping(&[("/work/mapped", "proj-mapped")]),
        &Some("proj-other".into()),
        utc(START),
        utc(END),
    );

    assert_eq!(result.allocations.len(), 2);
    // proj-mapped < proj-other alphabetically.
    assert_eq!(result.allocations[0].project_id, "proj-mapped");
    assert_eq!(result.allocations[0].start, utc(START));
    assert_eq!(result.allocations[0].end, utc("2026-02-04T13:00:00Z")); // 09:00 + 4h

    assert_eq!(result.allocations[1].project_id, "proj-other");
    assert_eq!(result.allocations[1].start, utc("2026-02-04T13:00:00Z"));
    assert_eq!(result.allocations[1].end, utc(END)); // 13:00 + 4h

    assert!(result.skipped.is_empty());
}

#[test]
fn unmapped_projects_skipped_when_other_disabled() {
    // 2h mapped + 2h unmapped, Other disabled -> mapped gets full 8h, unmapped skipped.
    let sessions = vec![
        session("/work/mapped", 7200),  // 2h
        session("/work/unknown", 7200), // 2h, unmapped -> skipped
    ];

    let result = compute_allocations(
        &sessions,
        &mapping(&[("/work/mapped", "proj-mapped")]),
        &None,
        utc(START),
        utc(END),
    );

    assert_eq!(result.allocations.len(), 1);
    assert_eq!(result.allocations[0].project_id, "proj-mapped");
    assert_eq!(result.allocations[0].start, utc(START));
    assert_eq!(result.allocations[0].end, utc(END));
    assert_eq!(result.skipped, vec!["/work/unknown"]);
}

#[test]
fn no_other_entry_when_all_projects_mapped() {
    let sessions = vec![session("/work/alpha", 3600), session("/work/beta", 3600)];

    let result = compute_allocations(
        &sessions,
        &mapping(&[("/work/alpha", "proj-a"), ("/work/beta", "proj-b")]),
        &Some("proj-other".into()),
        utc(START),
        utc(END),
    );
    assert!(result.allocations.iter().all(|a| a.project_id != "proj-other"));
    assert!(result.skipped.is_empty());
}

#[test]
fn allocations_are_contiguous_from_work_day_start() {
    let sessions = vec![
        session("/work/alpha", 5000),
        session("/work/beta", 3000),
        session("/work/gamma", 2000),
    ];

    let result = compute_allocations(
        &sessions,
        &mapping(&[
            ("/work/alpha", "proj-a"),
            ("/work/beta", "proj-b"),
            ("/work/gamma", "proj-c"),
        ]),
        &None,
        utc(START),
        utc(END),
    );

    assert_eq!(result.allocations.len(), 3);
    assert_eq!(result.allocations[0].start, utc(START));
    for i in 1..result.allocations.len() {
        assert_eq!(
            result.allocations[i].start,
            result.allocations[i - 1].end,
            "gap between allocation {} and {}",
            i - 1,
            i
        );
    }
    assert_eq!(result.allocations.last().unwrap().end, utc(END));
}

#[test]
fn last_entry_absorbs_rounding_remainder() {
    // Durations 3000:3000:1000 (ratio 3:3:1 over 7).
    // 28800 * 3/7 = 12342.857... -> floor 12342 each for proj-a, proj-b.
    // 28800 * 1/7 = 4114.285...  -> floor 4114 for proj-c.
    // Sum of floors = 28798. Remainder 2 -> proj-c (last, alphabetically) = 4116.
    let sessions = vec![
        session("/work/alpha", 3000),
        session("/work/beta", 3000),
        session("/work/gamma", 1000),
    ];

    let result = compute_allocations(
        &sessions,
        &mapping(&[
            ("/work/alpha", "proj-a"),
            ("/work/beta", "proj-b"),
            ("/work/gamma", "proj-c"),
        ]),
        &None,
        utc(START),
        utc(END),
    );

    let durations: Vec<i64> = result.allocations.iter().map(|a| a.end - a.start).collect();

    assert_eq!(durations, vec![12342, 12342, 4116]);
    assert_eq!(durations.iter().sum::<i64>(), WORK_DAY_SECS);
}

#[test]
fn allocation_split_is_deterministic() {
    // The same inputs give exactly the same split, remainder placement
    // included, on every run.
    let sessions = vec![
        session("/work/alpha", 3000),
        session("/work/beta", 3000),
        session("/work/gamma", 1000),
    ];
    let m = mapping(&[
        ("/work/alpha", "proj-a"),
        ("/work/beta", "proj-b"),
        ("/work/gamma", "proj-c"),
    ]);

    let first = compute_allocations(&sessions, &m, &None, utc(START), utc(END));
    let second = compute_allocations(&sessions, &m, &None, utc(START), utc(END));

    assert_eq!(first.allocations.len(), second.allocations.len());
    for (a, b) in first.allocations.iter().zip(second.allocations.iter()) {
        assert_eq!(a.project_id, b.project_id);
        assert_eq!(a.start, b.start);
        assert_eq!(a.end, b.end);
    }
    assert_eq!(first.skipped, second.skipped);
}

#[test]
fn zero_duration_sessions_give_whole_window_to_last_destination() {
    // Nothing was tracked, but destinations exist: every floor share is zero
    // and the last destination in sorted order absorbs the whole window.
    let sessions = vec![session("/work/alpha", 0), session("/work/beta", 0)];

    let result = compute_allocations(
        &sessions,
        &mapping(&[("/work/alpha", "proj-a"), ("/work/beta", "proj-b")]),
        &None,
        utc(START),
        utc(END),
    );

    assert_eq!(result.allocations.len(), 2);
    assert_eq!(result.allocations[0].start, result.allocations[0].end);
    assert_eq!(result.allocations[1].end - result.allocations[1].start, WORK_DAY_SECS);
}

#[test]
fn all_sessions_skipped_yields_no_allocations_but_reports_projects() {
    // Every project unmapped, no fallback: the whole day's time is excluded,
    // and each skipped project is reported once, in first-occurrence order.
    let sessions = vec![
        session("/work/unknown-b", 3600),
        session("/work/unknown-a", 3600),
        session("/work/unknown-b", 3600),
    ];

    let result = compute_allocations(
        &sessions,
        &mapping(&[("/work/mapped", "proj-mapped")]),
        &None,
        utc(START),
        utc(END),
    );

    assert!(result.allocations.is_empty());
    assert_eq!(result.skipped, vec!["/work/unknown-b", "/work/unknown-a"]);
}

// --- the weekday filter ---

fn day_number(y: i32, m: u32, d: u32) -> i64 {
    chrono::NaiveDate::from_ymd_opt(y, m, d)
        .unwrap()
        .signed_duration_since(chrono::NaiveDate::from_ymd_opt(1970, 1, 1).unwrap())
        .num_days()
}

#[test]
fn is_weekday_filters_correctly() {
    // 2026-02-02 is Monday
    // 2026-02-07 is Saturday
    // 2026-02-08 is Sunday
    let mon = day_number(2026, 2, 2);
    let tue = day_number(2026, 2, 3);
    let wed = day_number(2026, 2, 4);
    let thu = day_number(2026, 2, 5);
    let fri = day_number(2026, 2, 6);
    let sat = day_number(2026, 2, 7);
    let sun = day_number(2026, 2, 8);

    assert!(is_weekday(mon), "Monday should be a weekday");
    assert!(is_weekday(tue), "Tuesday should be a weekday");
    assert!(is_weekday(wed), "Wednesday should be a weekday");
    assert!(is_weekday(thu), "Thursday should be a weekday");
    assert!(is_weekday(fri), "Friday should be a weekday");
    assert!(!is_weekday(sat), "Saturday should not be a weekday");
    assert!(!is_weekday(sun), "Sunday should not be a weekday");
}

// --- the workday window and allocate's error cases ---

#[test]
fn work_day_boundaries_rejects_malformed_times() {
    let date = day_number(2026, 2, 4);
    assert!(matches!(
        work_day_boundaries("9am", "17:00", date),
        Err(SyncError::InvalidWorkDayStart)
    ));
    assert!(matches!(
        work_day_boundaries("09:00", "late", date),
        Err(SyncError::InvalidWorkDayEnd)
    ));
}

#[test]
fn work_day_boundaries_accepts_hh_mm_times() {
    let date = day_number(2026, 2, 4);
    let (s, e) = work_day_boundaries("09:00", "17:00", date).unwrap();
    // The local offset is under a day, so the window sits within a day of the
    // same civil time read as UTC.
    let naive_start = date * 86400 + 9 * 3600;
    let naive_end = date * 86400 + 17 * 3600;
    assert!((s - naive_start).abs() < 86400);
    assert!((e - naive_end).abs() < 86400);
    assert_eq!(e - s, 8 * 3600);
}

#[test]
fn allocate_rejects_an_empty_window() {
    let config = SyncConfig {
        work_day_start: "09:00".to_string(),
        work_day_end: "09:00".to_string(),
        project_mapping: mapping(&[("/work/alpha", "proj-a")]),
        other_project_id: None,
        workspace_id: "ws-1".to_string(),
    };
    let sessions = vec![session("/work/alpha", 3600)];
    let date = day_number(2026, 2, 4);
    assert!(matches!(allocate(&sessions, &config, date), Err(SyncError::EmptyWindow)));
}

#[test]
fn allocate_rejects_oversized_totals() {
    let config = SyncConfig {
        work_day_start: "09:00".to_string(),
        work_day_end: "17:00".to_string(),
        project_mapping: mapping(&[("/work/alpha", "proj-a")]),
        other_project_id: None,
        workspace_id: "ws-1".to_string(),
    };
    let sessions = vec![session("/work/alpha", i64::MAX / 2), session("/work/alpha", i64::MAX / 2)];
    let date = day_number(2026, 2, 4);
    assert!(matches!(allocate(&sessions, &config, date), Err(SyncError::OversizedWindow)));
}

#[test]
fn allocate_of_no_sessions_is_empty() {
    let config = SyncConfig {
        work_day_start: "09:00".to_string(),
        work_day_end: "17:00".to_string(),
        project_mapping: mapping(&[("/work/alpha", "proj-a")]),
        other_project_id: None,
        workspace_id: "ws-1".to_string(),
    };
    let date = day_number(2026, 2, 4);
    let result = allocate(&vec![], &config, date).unwrap();
    assert!(result.allocations.is_empty());
    assert!(result.skipped.is_empty());
}
