use worktrack::parser::Session;
use worktrack::posting::status_hint;
use worktrack::spinner::Spinner;
use worktrack::view::{
    aggregate_sessions, format_tokens, handle_key, last_segment, KeyOutcome, KeyPress,
    PendingAction, Timeframe,
};
use worktrack::default_idle_timeout_minutes;

fn utc(s: &str) -> i64 {
    s.parse::<chrono::DateTime<chrono::Utc>>().unwrap().timestamp()
}

fn session(project: &str, end: &str, secs: i64) -> Session {
    let end = utc(end);
    Session {
        start: end - secs,
        end,
        duration: secs,
        project: project.to_string(),
        input_tokens: 0,
        output_tokens: 0,
        cache_creation_input_tokens: 0,
        cache_read_input_tokens: 0,
    }
}

fn session_with_tokens(
    project: &str,
    end: &str,
    secs: i64,
    input: u64,
    output: u64,
    cache_create: u64,
    cache_read: u64,
) -> Session {
    let end = utc(end);
    Session {
        start: end - secs,
        end,
        duration: secs,
        project: project.to_string(),
        input_tokens: input,
        output_tokens: output,
        cache_creation_input_tokens: cache_create,
        cache_read_input_tokens: cache_read,
    }
}

#[test]
fn groups_and_sums_duration() {
    let input = vec![
        session("/work/api", "2026-02-03T10:00:00Z", 600),  // 10m
        session("/work/api", "2026-02-03T11:00:00Z", 1200), // 20m
    ];

    let out = aggregate_sessions(&input);

    assert_eq!(out.len(), 1);
    assert_eq!(out[0].total_minutes, 30);
}

#[test]
fn tracks_latest_end_as_last_activity() {
    let late = utc("2026-02-03T11:00:00Z");

    let input = vec![
        session("/work/api", "2026-02-03T10:00:00Z", 600),
        session("/work/api", "2026-02-03T11:00:00Z", 600),
    ];

    let out = aggregate_sessions(&input);

    assert_eq!(out[0].last_activity, late);
}

#[test]
fn separate_projects_stay_separate() {
    let input = vec![
        session("/work/api", "2026-02-03T10:00:00Z", 600),  // 10m
        session("/work/cli", "2026-02-03T10:00:00Z", 1800), // 30m
    ];

    let out = aggregate_sessions(&input);

    assert_eq!(out.len(), 2);
    let api = out.iter().find(|s| s.project == "/work/api").unwrap();
    let cli = out.iter().find(|s| s.project == "/work/cli").unwrap();
    assert_eq!(api.total_minutes, 10);
    assert_eq!(cli.total_minutes, 30);
}

// --- Token aggregation ---------------------------------------------------

#[test]
fn aggregates_token_totals_across_sessions() {
    let input = vec![
        session_with_tokens("/work/api", "2026-02-03T10:00:00Z", 600, 100, 50, 200, 300),
        session_with_tokens("/work/api", "2026-02-03T11:00:00Z", 600, 50, 25, 100, 150),
    ];

    let out = aggregate_sessions(&input);

    assert_eq!(out.len(), 1);
    assert_eq!(out[0].input_tokens, 150);
    assert_eq!(out[0].output_tokens, 75);
    assert_eq!(out[0].cache_creation_input_tokens, 300);
    assert_eq!(out[0].cache_read_input_tokens, 450);
}

#[test]
fn token_totals_stay_separate_per_project() {
    let input = vec![
        session_with_tokens("/work/api", "2026-02-03T10:00:00Z", 600, 100, 50, 0, 0),
        session_with_tokens("/work/cli", "2026-02-03T10:00:00Z", 600, 200, 75, 0, 0),
    ];

    let out = aggregate_sessions(&input);

    let api = out.iter().find(|s| s.project == "/work/api").unwrap();
    let cli = out.iter().find(|s| s.project == "/work/cli").unwrap();
    assert_eq!(api.input_tokens, 100);
    assert_eq!(api.output_tokens, 50);
    assert_eq!(cli.input_tokens, 200);
    assert_eq!(cli.output_tokens, 75);
}

#[test]
fn summaries_are_ordered_by_last_path_segment() {
    let input = vec![
        session("/work/zulu", "2026-02-03T10:00:00Z", 600),
        session("/home/alpha", "2026-02-03T10:00:00Z", 600),
        session("/work/mike", "2026-02-03T10:00:00Z", 600),
    ];

    let out = aggregate_sessions(&input);

    let names: Vec<&str> = out.iter().map(|s| last_segment(&s.project)).collect();
    assert_eq!(names, vec!["alpha", "mike", "zulu"]);
}

// --- Token formatting ----------------------------------------------------

#[test]
fn formats_tokens_below_thousand() {
    assert_eq!(format_tokens(150), "150");
}

#[test]
fn formats_tokens_in_thousands() {
    assert_eq!(format_tokens(3200), "3.2k");
}

#[test]
fn formats_tokens_in_millions() {
    assert_eq!(format_tokens(1_200_000), "1.2M");
}

#[test]
fn formats_exact_thousand() {
    assert_eq!(format_tokens(1000), "1k");
}

// --- Timeframe cycling ---------------------------------------------------

#[test]
fn timeframe_cycles_today_7d_30d_and_wraps() {
    let mut tf = Timeframe::Today;

    tf = tf.next();
    assert_eq!(tf, Timeframe::Last7Days);

    tf = tf.next();
    assert_eq!(tf, Timeframe::Last30Days);

    tf = tf.next();
    assert_eq!(tf, Timeframe::Today);
}

#[test]
fn timeframe_labels_and_windows() {
    assert_eq!(Timeframe::Today.label(), "Today");
    assert_eq!(Timeframe::Last7Days.label(), "Last 7 days");
    assert_eq!(Timeframe::Last30Days.label(), "Last 30 days");
    assert_eq!(Timeframe::Today.days_back(), 0);
    assert_eq!(Timeframe::Last7Days.days_back(), 6);
    assert_eq!(Timeframe::Last30Days.days_back(), 29);
}

// --- Keypress dispatch ---------------------------------------------------

#[test]
fn quit_requires_confirmation() {
    let mut pending: Option<PendingAction> = None;

    // 'q' arms quitting but does not quit.
    assert_eq!(handle_key(&mut pending, KeyPress::Char('q')), KeyOutcome::Continue);
    assert_eq!(pending, Some(PendingAction::Quit));

    // Enter confirms.
    assert_eq!(handle_key(&mut pending, KeyPress::Enter), KeyOutcome::Quit);
    assert_eq!(pending, None);
}

#[test]
fn any_other_key_cancels_a_pending_action() {
    let mut pending = Some(PendingAction::Config);
    assert_eq!(handle_key(&mut pending, KeyPress::Char('x')), KeyOutcome::Continue);
    assert_eq!(pending, None);

    let mut pending = Some(PendingAction::Config);
    assert_eq!(handle_key(&mut pending, KeyPress::Enter), KeyOutcome::OpenConfig);
    assert_eq!(pending, None);
}

// --- Path segments --------------------------------------------------------

#[test]
fn last_segment_takes_the_final_component() {
    assert_eq!(last_segment("/work/api"), "api");
    assert_eq!(last_segment("api"), "api");
    assert_eq!(last_segment(""), "");
}

// --- Status hints ----------------------------------------------------------

#[test]
fn status_hints_name_the_problem() {
    assert_eq!(status_hint(400), "invalid project ID or request parameters");
    assert_eq!(status_hint(401), "check your API key");
    assert_eq!(status_hint(403), "access forbidden - check workspace/project permissions");
    assert_eq!(status_hint(404), "project or workspace not found");
    assert_eq!(status_hint(422), "invalid request - check time range and project ID");
    assert_eq!(status_hint(500), "unexpected error");
}

#[test]
fn default_idle_timeout_is_fifteen_minutes() {
    assert_eq!(default_idle_timeout_minutes(), 15);
}

// --- Spinner ---------------------------------------------------------------

#[test]
fn new_spinner_starts_at_first_frame() {
    let spinner = Spinner::new();
    assert_eq!(spinner.current(), '\u{280B}');
}

#[test]
fn tick_advances_to_next_frame() {
    let mut spinner = Spinner::new();
    spinner.tick();
    assert_eq!(spinner.current(), '\u{2819}');
}

#[test]
fn tick_wraps_around_after_last_frame() {
    let mut spinner = Spinner::new();
    for _ in 0..10 {
        spinner.tick();
    }
    // After 10 ticks on a 10-frame spinner, back to frame 0
    assert_eq!(spinner.current(), '\u{280B}');
}

#[test]
fn current_returns_braille_character() {
    let mut spinner = Spinner::new();
    let expected = ['\u{280B}', '\u{2819}', '\u{2839}', '\u{2838}', '\u{283C}', '\u{2834}',
        '\u{2826}', '\u{2827}', '\u{2807}', '\u{280F}'];
    for &ch in &expected {
        assert_eq!(spinner.current(), ch);
        spinner.tick();
    }
}

#[test]
fn reset_returns_to_first_frame() {
    let mut spinner = Spinner::new();
    spinner.tick();
    spinner.tick();
    spinner.reset();
    assert_eq!(spinner.current(), '\u{280B}');
}
