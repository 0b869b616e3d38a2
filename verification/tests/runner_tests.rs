use worktrack::parser::Session;
use worktrack::store::Store;
use worktrack::sync::{ProjectMapping, SyncConfig, SyncError, SyncRunner, SyncStep};

fn day_number(y: i32, m: u32, d: u32) -> i64 {
    chrono::NaiveDate::from_ymd_opt(y, m, d)
        .unwrap()
        .signed_duration_since(chrono::NaiveDate::from_ymd_opt(1970, 1, 1).unwrap())
        .num_days()
}

/// A session that covers the given calendar day generously in every time
/// zone, so the day's workday window always intersects it.
fn broad_session(project: &str, day: i64, duration_secs: i64) -> Session {
    Session {
        start: (day - 1) * 86400,
        end: (day + 2) * 86400,
        duration: duration_secs,
        project: project.to_string(),
        input_tokens: 0,
        output_tokens: 0,
        cache_creation_input_tokens: 0,
        cache_read_input_tokens: 0,
    }
}

fn config(pairs: &[(&str, &str)], other: Option<&str>) -> SyncConfig {
    let mut m = ProjectMapping::new();
    for (k, v) in pairs {
        m.insert(k.to_string(), v.to_string());
    }
    SyncConfig {
        work_day_start: "09:00".to_string(),
        work_day_end: "17:00".to_string(),
        project_mapping: m,
        other_project_id: other.map(|s| s.to_string()),
        workspace_id: "ws-1".to_string(),
    }
}

#[test]
fn day_without_sessions_is_not_marked_synced() {
    // Wednesday 2026-02-04 with an empty store: the walk finishes without
    // posting, and the day stays unmarked so later data can still sync it.
    let wed = day_number(2026, 2, 4);
    let mut store = Store::new();
    let mut runner = SyncRunner::new(config(&[], None), wed, wed);

    match runner.advance(&mut store).unwrap() {
        SyncStep::Finished { days, entries } => {
            assert_eq!(days, 0);
            assert_eq!(entries, 0);
        }
        _ => panic!("expected the walk to finish"),
    }
    assert!(!store.is_day_synced(wed, "ws-1"));
}

#[test]
fn weekend_days_are_skipped() {
    // Saturday and Sunday carry sessions, but the walk never posts for them.
    let sat = day_number(2026, 2, 7);
    let sun = day_number(2026, 2, 8);
    let mut store = Store::new();
    store.upsert("s1", &broad_session("/work/alpha", sat, 3600));
    store.upsert("s2", &broad_session("/work/alpha", sun, 3600));

    let mut runner = SyncRunner::new(config(&[("/work/alpha", "proj-a")], None), sat, sun);
    // Both days fall on the weekend; the sessions span into the weekdays
    // around them, so restrict the walk to the weekend itself.
    loop {
        match runner.advance(&mut store).unwrap() {
            SyncStep::Post { date, .. } => {
                assert!(
                    date != sat && date != sun,
                    "no weekend day may be posted"
                );
                runner.report_posted(&mut store, Ok("entry".to_string())).unwrap();
            }
            SyncStep::DayDone { date, .. } => {
                assert!(date != sat && date != sun, "no weekend day may be marked");
            }
            SyncStep::Finished { .. } => break,
        }
    }
    assert!(!store.is_day_synced(sat, "ws-1"));
    assert!(!store.is_day_synced(sun, "ws-1"));
}

#[test]
fn successful_walk_posts_and_marks_each_entry_and_day() {
    let wed = day_number(2026, 2, 4);
    let mut store = Store::new();
    store.upsert("s1", &broad_session("/work/alpha", wed, 10800));
    store.upsert("s2", &broad_session("/work/beta", wed, 3600));

    let cfg = config(&[("/work/alpha", "proj-a"), ("/work/beta", "proj-b")], None);
    let mut runner = SyncRunner::new(cfg, wed, wed);

    let mut posted: Vec<String> = Vec::new();
    let mut durations: Vec<i64> = Vec::new();
    let mut finished = false;
    let mut day_done = 0;
    while !finished {
        match runner.advance(&mut store).unwrap() {
            SyncStep::Post { date, project_id, start, end } => {
                assert_eq!(date, wed);
                assert!(end > start);
                posted.push(project_id.clone());
                durations.push(end - start);
                let id = format!("entry-{}", posted.len());
                runner.report_posted(&mut store, Ok(id)).unwrap();
            }
            SyncStep::DayDone { date, entries } => {
                assert_eq!(date, wed);
                assert_eq!(entries, 2);
                day_done += 1;
            }
            SyncStep::Finished { days, entries } => {
                assert_eq!(days, 1);
                assert_eq!(entries, 2);
                finished = true;
            }
        }
    }
    // Destination order is ascending by id, and the blocks carry the
    // engine's 3:1 split of the eight-hour workday.
    assert_eq!(posted, vec!["proj-a".to_string(), "proj-b".to_string()]);
    assert_eq!(durations, vec![6 * 3600, 2 * 3600]);
    assert_eq!(day_done, 1);
    assert!(store.is_day_synced(wed, "ws-1"));
    assert!(store.is_entry_synced(wed, "ws-1", "proj-a"));
    assert!(store.is_entry_synced(wed, "ws-1", "proj-b"));
}

#[test]
fn failed_post_aborts_and_rerun_retries_only_missing_entries() {
    // First run: proj-a posts fine, proj-b fails -> the run aborts, the day
    // stays unmarked, and proj-a's mark survives. A re-run re-derives the
    // same split and posts only proj-b.
    let wed = day_number(2026, 2, 4);
    let mut store = Store::new();
    store.upsert("s1", &broad_session("/work/alpha", wed, 10800));
    store.upsert("s2", &broad_session("/work/beta", wed, 3600));

    let cfg = config(&[("/work/alpha", "proj-a"), ("/work/beta", "proj-b")], None);
    let mut runner = SyncRunner::new(cfg, wed, wed);

    // proj-a succeeds.
    match runner.advance(&mut store).unwrap() {
        SyncStep::Post { project_id, .. } => {
            assert_eq!(project_id, "proj-a");
            runner.report_posted(&mut store, Ok("entry-a".to_string())).unwrap();
        }
        _ => panic!("expected a post for proj-a"),
    }
    // proj-b fails; the run aborts.
    match runner.advance(&mut store).unwrap() {
        SyncStep::Post { project_id, .. } => {
            assert_eq!(project_id, "proj-b");
            let r = runner.report_posted(&mut store, Err("boom".to_string()));
            assert!(matches!(r, Err(SyncError::PostFailed(_))));
        }
        _ => panic!("expected a post for proj-b"),
    }
    assert!(store.is_entry_synced(wed, "ws-1", "proj-a"));
    assert!(!store.is_entry_synced(wed, "ws-1", "proj-b"));
    assert!(!store.is_day_synced(wed, "ws-1"));

    // The aborted runner asks for no further posts.
    match runner.advance(&mut store).unwrap() {
        SyncStep::Finished { .. } => {}
        _ => panic!("an aborted walk must stay finished"),
    }
    assert!(!store.is_day_synced(wed, "ws-1"));

    // Re-run: only proj-b is attempted; proj-a's record is left intact.
    let cfg = config(&[("/work/alpha", "proj-a"), ("/work/beta", "proj-b")], None);
    let mut rerun = SyncRunner::new(cfg, wed, wed);
    match rerun.advance(&mut store).unwrap() {
        SyncStep::Post { project_id, .. } => {
            assert_eq!(project_id, "proj-b");
            rerun.report_posted(&mut store, Ok("entry-b".to_string())).unwrap();
        }
        _ => panic!("expected a post for proj-b only"),
    }
    match rerun.advance(&mut store).unwrap() {
        SyncStep::DayDone { date, entries } => {
            assert_eq!(date, wed);
            assert_eq!(entries, 1);
        }
        _ => panic!("expected the day to complete"),
    }
    match rerun.advance(&mut store).unwrap() {
        SyncStep::Finished { .. } => {}
        _ => panic!("expected the walk to finish"),
    }
    assert!(store.is_day_synced(wed, "ws-1"));
    assert!(store.is_entry_synced(wed, "ws-1", "proj-b"));
}

#[test]
fn all_projects_skipped_leaves_day_open() {
    // Unmapped project, no fallback: the allocation comes out empty and the
    // day is left unmarked.
    let wed = day_number(2026, 2, 4);
    let mut store = Store::new();
    store.upsert("s1", &broad_session("/work/unknown", wed, 3600));

    let mut runner = SyncRunner::new(config(&[("/work/alpha", "proj-a")], None), wed, wed);
    match runner.advance(&mut store).unwrap() {
        SyncStep::Finished { days, .. } => assert_eq!(days, 0),
        _ => panic!("expected the walk to finish without posting"),
    }
    assert!(!store.is_day_synced(wed, "ws-1"));
}

#[test]
fn synced_days_are_not_revisited() {
    let wed = day_number(2026, 2, 4);
    let mut store = Store::new();
    store.upsert("s1", &broad_session("/work/alpha", wed, 3600));
    store.mark_day_synced(wed, "ws-1").unwrap();

    let mut runner = SyncRunner::new(config(&[("/work/alpha", "proj-a")], None), wed, wed);
    match runner.advance(&mut store).unwrap() {
        SyncStep::Finished { days, entries } => {
            assert_eq!(days, 0);
            assert_eq!(entries, 0);
        }
        _ => panic!("an already-synced day must be skipped"),
    }
}

#[test]
fn days_are_walked_in_ascending_order() {
    // Wednesday and Thursday both carry sessions; the walk finishes Wednesday
    // completely before touching Thursday.
    let wed = day_number(2026, 2, 4);
    let thu = day_number(2026, 2, 5);
    let mut store = Store::new();
    store.upsert("s1", &broad_session("/work/alpha", wed, 3600));

    let cfg = config(&[("/work/alpha", "proj-a")], None);
    let mut runner = SyncRunner::new(cfg, wed, thu);

    let mut day_dates: Vec<i64> = Vec::new();
    let mut post_dates: Vec<i64> = Vec::new();
    loop {
        match runner.advance(&mut store).unwrap() {
            SyncStep::Post { date, .. } => {
                post_dates.push(date);
                runner.report_posted(&mut store, Ok(format!("entry-{}", date))).unwrap();
            }
            SyncStep::DayDone { date, .. } => day_dates.push(date),
            SyncStep::Finished { days, .. } => {
                assert_eq!(days, 2);
                break;
            }
        }
    }
    // The broad session intersects both days' windows, so both are synced,
    // strictly in date order, one post each.
    assert_eq!(day_dates, vec![wed, thu]);
    assert_eq!(post_dates, vec![wed, thu]);
    assert!(store.is_day_synced(wed, "ws-1"));
    assert!(store.is_day_synced(thu, "ws-1"));
}
