//! View model of the dashboard: timeframe selection, per-project aggregation
//! of stored sessions, token-count formatting, and keypress dispatch.

use vstd::prelude::*;

use crate::parser::Session;
use crate::text::dec_digits;
use crate::text::digit_char;
use crate::text::lemma_lex_lt_le_trans;
use crate::text::lemma_lex_trichotomy;
use crate::text::lex_le;
use crate::text::lex_lt;
use crate::text::push_char;
use crate::text::str_eq;
use crate::text::str_lt;
use crate::text::u64_to_string;

verus! {

// --- timeframes ---

#[derive(Debug, Clone, Copy, PartialEq, Eq, Structural)]
pub enum Timeframe {
    Today,
    Last7Days,
    Last30Days,
}

impl Timeframe {
    /// The next timeframe in the cycle Today -> 7 days -> 30 days -> Today.
    pub fn next(self) -> (r: Self)
        ensures
            r == match self {
                Timeframe::Today => Timeframe::Last7Days,
                Timeframe::Last7Days => Timeframe::Last30Days,
                Timeframe::Last30Days => Timeframe::Today,
            },
    {
        match self {
            Timeframe::Today => Timeframe::Last7Days,
            Timeframe::Last7Days => Timeframe::Last30Days,
            Timeframe::Last30Days => Timeframe::Today,
        }
    }

    pub fn label(&self) -> (r: &'static str)
        ensures
            r@ == match *self {
                Timeframe::Today => "Today"@,
                Timeframe::Last7Days => "Last 7 days"@,
                Timeframe::Last30Days => "Last 30 days"@,
            },
    {
        match self {
            Timeframe::Today => "Today",
            Timeframe::Last7Days => "Last 7 days",
            Timeframe::Last30Days => "Last 30 days",
        }
    }

    /// How many days before today the timeframe's window opens.
    pub fn days_back(self) -> (r: u64)
        ensures
            r == match self {
                Timeframe::Today => 0u64,
                Timeframe::Last7Days => 6u64,
                Timeframe::Last30Days => 29u64,
            },
    {
        match self {
            Timeframe::Today => 0,
            Timeframe::Last7Days => 6,
            Timeframe::Last30Days => 29,
        }
    }
}

// --- keypress dispatch ---

#[derive(Debug, Clone, Copy, PartialEq, Eq, Structural)]
pub enum PendingAction {
    Quit,
    Config,
}

#[derive(Debug, Clone, Copy, PartialEq, Eq, Structural)]
pub enum KeyOutcome {
    Quit,
    OpenConfig,
    Continue,
}

/// The keys the dispatcher distinguishes.
#[derive(Debug, Clone, Copy, PartialEq, Eq, Structural)]
pub enum KeyPress {
    Enter,
    Char(char),
    Other,
}

/// What a keypress yields given the pending-action state.
pub open spec fn spec_key_outcome(pending: Option<PendingAction>, code: KeyPress) -> KeyOutcome {
    match pending {
        Some(action) => if code is Enter {
            match action {
                PendingAction::Quit => KeyOutcome::Quit,
                PendingAction::Config => KeyOutcome::OpenConfig,
            }
        } else {
            KeyOutcome::Continue
        },
        None => KeyOutcome::Continue,
    }
}

/// The pending-action state after a keypress.
pub open spec fn spec_key_pending(pending: Option<PendingAction>, code: KeyPress) -> Option<
    PendingAction,
> {
    match pending {
        Some(_) => None,
        None => if code == KeyPress::Char('q') {
            Some(PendingAction::Quit)
        } else {
            None
        },
    }
}

/// Dispatch a keypress against the pending-action state: Enter confirms a
/// pending action, any other key cancels it, and `q` arms quitting when
/// nothing is pending.
pub fn handle_key(pending: &mut Option<PendingAction>, code: KeyPress) -> (r: KeyOutcome)
    ensures
        r == spec_key_outcome(*old(pending), code),
        *final(pending) == spec_key_pending(*old(pending), code),
{
    match pending.take() {
        Some(action) => match code {
            KeyPress::Enter => match action {
                PendingAction::Quit => KeyOutcome::Quit,
                PendingAction::Config => KeyOutcome::OpenConfig,
            },
            _ => KeyOutcome::Continue,
        },
        None => {
            if let KeyPress::Char(c) = code {
                if c == 'q' {
                    *pending = Some(PendingAction::Quit);
                }
            }
            KeyOutcome::Continue
        },
    }
}

// --- path segments ---

/// The position right after the last `/` of a path, or 0 when it has none.
pub open spec fn segment_start(s: Seq<char>) -> int
    decreases s.len(),
{
    if s.len() == 0 {
        0
    } else if s.last() == '/' {
        s.len() as int
    } else {
        segment_start(s.drop_last())
    }
}

/// The text after the last `/` of a path; the whole path when it has none.
pub open spec fn last_segment_of(s: Seq<char>) -> Seq<char> {
    s.subrange(segment_start(s), s.len() as int)
}

proof fn lemma_segment_start_bounds(s: Seq<char>)
    ensures
        0 <= segment_start(s) <= s.len(),
    decreases s.len(),
{
    if s.len() > 0 && s.last() != '/' {
        lemma_segment_start_bounds(s.drop_last());
    }
}

/// The last `/`-separated component of a path, or the path itself when it
/// holds no `/`.
pub fn last_segment(path: &str) -> (r: &str)
    ensures
        r@ == last_segment_of(path@),
{
    let n = path.unicode_len();
    let mut cut: usize = n;
    proof {
        assert(path@.take(n as int) =~= path@);
    }
    while cut > 0 && path.get_char(cut - 1) != '/'
        invariant
            n == path@.len(),
            0 <= cut <= n,
            segment_start(path@) == segment_start(path@.take(cut as int)),
        decreases cut,
    {
        proof {
            let t = path@.take(cut as int);
            assert(t.last() == path@[cut - 1]);
            assert(t.drop_last() =~= path@.take(cut - 1));
        }
        cut = cut - 1;
    }
    proof {
        lemma_segment_start_bounds(path@.take(cut as int));
        if cut > 0 {
            let t = path@.take(cut as int);
            assert(t.last() == path@[cut - 1]);
            assert(segment_start(t) == cut);
        }
        assert(segment_start(path@) == cut);
    }
    path.substring_char(cut, n)
}

// --- token formatting ---

/// A count rendered for display: plain below one thousand, tenths of
/// thousands with a `k` suffix below one million, tenths of millions with an
/// `M` suffix above, rounding half up and dropping a zero tenth.
pub open spec fn spec_format_tokens(n: int) -> Seq<char> {
    if n >= 1000000 {
        spec_scaled(n, 100000, 'M')
    } else if n >= 1000 {
        spec_scaled(n, 100, 'k')
    } else {
        dec_digits(n)
    }
}

/// `n` scaled down by `unit * 10`, rendered in tenths with a suffix.
pub open spec fn spec_scaled(n: int, unit: int, suffix: char) -> Seq<char> {
    let t = n / unit + if n % unit >= unit / 2 {
        1int
    } else {
        0int
    };
    if t % 10 == 0 {
        dec_digits(t / 10).push(suffix)
    } else {
        dec_digits(t / 10).push('.').push(digit_char(t % 10)).push(suffix)
    }
}

fn format_scaled(n: u64, unit: u64, suffix: char) -> (s: String)
    requires
        unit == 100 || unit == 100000,
        n >= 10 * unit,
    ensures
        s@ == spec_scaled(n as int, unit as int, suffix),
{
    let t = n / unit + if n % unit >= unit / 2 {
        1
    } else {
        0
    };
    let mut s = u64_to_string(t / 10);
    if t % 10 == 0 {
        push_char(&mut s, suffix);
    } else {
        push_char(&mut s, '.');
        let d: u8 = (t % 10) as u8;
        push_char(&mut s, (48 + d) as char);
        push_char(&mut s, suffix);
    }
    s
}

/// Render a token count for display.
pub fn format_tokens(n: u64) -> (s: String)
    ensures
        s@ == spec_format_tokens(n as int),
{
    if n >= 1_000_000 {
        format_scaled(n, 100_000, 'M')
    } else if n >= 1_000 {
        format_scaled(n, 100, 'k')
    } else {
        u64_to_string(n)
    }
}

// --- per-project aggregation ---

pub struct ProjectSummary {
    pub project: String,
    pub total_minutes: i64,
    /// The latest session end among the project's sessions.
    pub last_activity: i64,
    pub input_tokens: u64,
    pub output_tokens: u64,
    pub cache_creation_input_tokens: u64,
    pub cache_read_input_tokens: u64,
}

/// Sum of one per-session quantity over all sessions.
pub open spec fn session_sum(sessions: Seq<Session>, f: spec_fn(Session) -> int) -> int
    decreases sessions.len(),
{
    if sessions.len() == 0 {
        0
    } else {
        session_sum(sessions.drop_last(), f) + f(sessions.last())
    }
}

/// Sum of one per-session quantity over the sessions of one project.
pub open spec fn project_sum(sessions: Seq<Session>, p: Seq<char>, f: spec_fn(Session) -> int) -> int
    decreases sessions.len(),
{
    if sessions.len() == 0 {
        0
    } else {
        project_sum(sessions.drop_last(), p, f) + if sessions.last().project@ == p {
            f(sessions.last())
        } else {
            0
        }
    }
}

pub open spec fn has_project(sessions: Seq<Session>, p: Seq<char>) -> bool {
    exists|i: int| 0 <= i < sessions.len() && #[trigger] sessions[i].project@ == p
}

/// The latest end among a project's sessions.
pub open spec fn project_last_end(sessions: Seq<Session>, p: Seq<char>) -> int
    decreases sessions.len(),
{
    if sessions.len() == 0 {
        0
    } else {
        let rest = project_last_end(sessions.drop_last(), p);
        if sessions.last().project@ == p {
            if has_project(sessions.drop_last(), p) && rest >= sessions.last().end as int {
                rest
            } else {
                sessions.last().end as int
            }
        } else {
            rest
        }
    }
}

pub open spec fn sel_minutes(s: Session) -> int {
    s.duration as int / 60
}

pub open spec fn sel_input(s: Session) -> int {
    s.input_tokens as int
}

pub open spec fn sel_output(s: Session) -> int {
    s.output_tokens as int
}

pub open spec fn sel_cache_creation(s: Session) -> int {
    s.cache_creation_input_tokens as int
}

pub open spec fn sel_cache_read(s: Session) -> int {
    s.cache_read_input_tokens as int
}

/// A summary holds exactly its project's sums.
pub open spec fn summary_matches(sessions: Seq<Session>, sm: ProjectSummary) -> bool {
    &&& has_project(sessions, sm.project@)
    &&& sm.total_minutes as int == project_sum(sessions, sm.project@, |s: Session| sel_minutes(s))
    &&& sm.input_tokens as int == project_sum(sessions, sm.project@, |s: Session| sel_input(s))
    &&& sm.output_tokens as int == project_sum(sessions, sm.project@, |s: Session| sel_output(s))
    &&& sm.cache_creation_input_tokens as int == project_sum(
        sessions,
        sm.project@,
        |s: Session| sel_cache_creation(s),
    )
    &&& sm.cache_read_input_tokens as int == project_sum(
        sessions,
        sm.project@,
        |s: Session| sel_cache_read(s),
    )
    &&& sm.last_activity as int == project_last_end(sessions, sm.project@)
}

/// A project's sum stays within the sum over all sessions.
proof fn lemma_project_sum_le(sessions: Seq<Session>, p: Seq<char>, f: spec_fn(Session) -> int)
    requires
        forall|k: int| 0 <= k < sessions.len() ==> #[trigger] f(sessions[k]) >= 0,
    ensures
        0 <= project_sum(sessions, p, f) <= session_sum(sessions, f),
    decreases sessions.len(),
{
    if sessions.len() > 0 {
        lemma_project_sum_le(sessions.drop_last(), p, f);
    }
}

proof fn lemma_session_sum_prefix(sessions: Seq<Session>, i: int, f: spec_fn(Session) -> int)
    requires
        forall|k: int| 0 <= k < sessions.len() ==> #[trigger] f(sessions[k]) >= 0,
        0 <= i <= sessions.len(),
    ensures
        session_sum(sessions.take(i), f) <= session_sum(sessions, f),
    decreases sessions.len() - i,
{
    if i < sessions.len() {
        lemma_session_sum_prefix(sessions, i + 1, f);
        assert(sessions.take(i + 1).drop_last() =~= sessions.take(i));
    } else {
        assert(sessions.take(i) =~= sessions);
    }
}

/// Find the summary holding a project, if any.
fn find_project(summaries: &Vec<ProjectSummary>, p: &str) -> (r: Option<usize>)
    ensures
        match r {
            Some(k) => k < summaries@.len() && summaries@[k as int].project@ == p@,
            None => forall|k: int| 0 <= k < summaries@.len() ==> summaries@[k].project@ != p@,
        },
{
    let n = summaries.len();
    let mut i: usize = 0;
    while i < n
        invariant
            n == summaries@.len(),
            0 <= i <= n,
            forall|k: int| 0 <= k < i ==> summaries@[k].project@ != p@,
        decreases n - i,
    {
        if str_eq(summaries[i].project.as_str(), p) {
            return Some(i);
        }
        i = i + 1;
    }
    None
}

/// The display-sort key of a summary: the last path segment of its project.
pub open spec fn segment_of(sm: ProjectSummary) -> Seq<char> {
    last_segment_of(sm.project@)
}

pub open spec fn segments_sorted(summaries: Seq<ProjectSummary>) -> bool {
    forall|i: int, j: int|
        0 <= i < j < summaries.len() ==> lex_le(
            segment_of(#[trigger] summaries[i]),
            segment_of(#[trigger] summaries[j]),
        )
}

/// Where a new summary with the given segment belongs, keeping the display
/// order: after every entry whose segment is not greater.
fn summary_pos(summaries: &Vec<ProjectSummary>, seg: &str) -> (pos: usize)
    requires
        segments_sorted(summaries@),
    ensures
        pos <= summaries@.len(),
        forall|j: int| 0 <= j < pos ==> lex_le(segment_of(#[trigger] summaries@[j]), seg@),
        forall|j: int| pos <= j < summaries@.len() ==> lex_lt(seg@, segment_of(#[trigger] summaries@[j])),
{
    let n = summaries.len();
    let mut i: usize = 0;
    while i < n
        invariant
            n == summaries@.len(),
            segments_sorted(summaries@),
            0 <= i <= n,
            forall|j: int| 0 <= j < i ==> lex_le(segment_of(#[trigger] summaries@[j]), seg@),
        decreases n - i,
    {
        let cur_seg = last_segment(summaries[i].project.as_str());
        if str_lt(seg, cur_seg) {
            proof {
                assert forall|j: int|
                    i <= j < summaries@.len() implies lex_lt(
                    seg@,
                    segment_of(#[trigger] summaries@[j]),
                ) by {
                    if j > i {
                        lemma_lex_lt_le_trans(
                            seg@,
                            segment_of(summaries@[i as int]),
                            segment_of(summaries@[j]),
                        );
                    }
                }
            }
            return i;
        }
        proof {
            lemma_lex_trichotomy(seg@, segment_of(summaries@[i as int]));
        }
        i = i + 1;
    }
    n
}

/// Group sessions by project: sum the minutes and token counters per project,
/// track the latest end as last activity, and order the groups by the last
/// path segment of the project for a stable display.
pub fn aggregate_sessions(sessions: &Vec<Session>) -> (r: Vec<ProjectSummary>)
    requires
        forall|k: int| 0 <= k < sessions@.len() ==> sessions@[k].duration >= 0,
        session_sum(sessions@, |s: Session| sel_minutes(s)) <= i64::MAX,
        session_sum(sessions@, |s: Session| sel_input(s)) <= u64::MAX,
        session_sum(sessions@, |s: Session| sel_output(s)) <= u64::MAX,
        session_sum(sessions@, |s: Session| sel_cache_creation(s)) <= u64::MAX,
        session_sum(sessions@, |s: Session| sel_cache_read(s)) <= u64::MAX,
    ensures
        forall|k: int| 0 <= k < r@.len() ==> summary_matches(sessions@, #[trigger] r@[k]),
        forall|i: int, j: int| 0 <= i < j < r@.len() ==> r@[i].project@ != r@[j].project@,
        forall|i: int|
            0 <= i < sessions@.len() ==> exists|k: int|
                0 <= k < r@.len() && r@[k].project@ == #[trigger] (sessions@[i].project@),
        segments_sorted(r@),
{
    let mut summaries: Vec<ProjectSummary> = Vec::new();
    let n = sessions.len();
    let mut i: usize = 0;
    proof {
        assert(sessions@.take(0) =~= Seq::<Session>::empty());
    }
    while i < n
        invariant
            0 <= i <= n,
            n == sessions@.len(),
            forall|k: int| 0 <= k < sessions@.len() ==> sessions@[k].duration >= 0,
            session_sum(sessions@, |s: Session| sel_minutes(s)) <= i64::MAX,
            session_sum(sessions@, |s: Session| sel_input(s)) <= u64::MAX,
            session_sum(sessions@, |s: Session| sel_output(s)) <= u64::MAX,
            session_sum(sessions@, |s: Session| sel_cache_creation(s)) <= u64::MAX,
            session_sum(sessions@, |s: Session| sel_cache_read(s)) <= u64::MAX,
            forall|k: int|
                0 <= k < summaries@.len() ==> summary_matches(
                    sessions@.take(i as int),
                    #[trigger] summaries@[k],
                ),
            forall|a: int, b: int|
                0 <= a < b < summaries@.len() ==> summaries@[a].project@ != summaries@[b].project@,
            forall|k: int|
                0 <= k < i ==> exists|m: int|
                    0 <= m < summaries@.len() && summaries@[m].project@ == #[trigger] (
                    sessions@[k].project@),
            segments_sorted(summaries@),
        decreases n - i,
    {
        proof {
            let t = sessions@.take(i as int);
            let t1 = sessions@.take(i + 1);
            assert(t1.drop_last() =~= t);
            assert(t1.last() == sessions@[i as int]);
            assert(forall|k: int| 0 <= k < t1.len() ==> #[trigger] t1[k].duration >= 0);
            lemma_session_sum_prefix(sessions@, i + 1, |s: Session| sel_minutes(s));
            lemma_session_sum_prefix(sessions@, i + 1, |s: Session| sel_input(s));
            lemma_session_sum_prefix(sessions@, i + 1, |s: Session| sel_output(s));
            lemma_session_sum_prefix(sessions@, i + 1, |s: Session| sel_cache_creation(s));
            lemma_session_sum_prefix(sessions@, i + 1, |s: Session| sel_cache_read(s));
            lemma_project_sum_le(t1, sessions@[i as int].project@, |s: Session| sel_minutes(s));
            lemma_project_sum_le(t1, sessions@[i as int].project@, |s: Session| sel_input(s));
            lemma_project_sum_le(t1, sessions@[i as int].project@, |s: Session| sel_output(s));
            lemma_project_sum_le(
                t1,
                sessions@[i as int].project@,
                |s: Session| sel_cache_creation(s),
            );
            lemma_project_sum_le(t1, sessions@[i as int].project@, |s: Session| sel_cache_read(s));
        }
        let s = &sessions[i];
        let ghost t = sessions@.take(i as int);
        let ghost t1 = sessions@.take(i + 1);
        let ghost pre = summaries@;
        match find_project(&summaries, s.project.as_str()) {
            Some(k) => {
                proof {
                    assert(summary_matches(t, pre[k as int]));
                    lemma_project_sum_le(t, pre[k as int].project@, |s: Session| sel_minutes(s));
                    lemma_project_sum_le(t, pre[k as int].project@, |s: Session| sel_input(s));
                    lemma_project_sum_le(t, pre[k as int].project@, |s: Session| sel_output(s));
                    lemma_project_sum_le(
                        t,
                        pre[k as int].project@,
                        |s: Session| sel_cache_creation(s),
                    );
                    lemma_project_sum_le(t, pre[k as int].project@, |s: Session| sel_cache_read(s));
                    lemma_session_sum_prefix(sessions@, i as int, |s: Session| sel_minutes(s));
                    lemma_session_sum_prefix(sessions@, i as int, |s: Session| sel_input(s));
                    lemma_session_sum_prefix(sessions@, i as int, |s: Session| sel_output(s));
                    lemma_session_sum_prefix(sessions@, i as int, |s: Session| sel_cache_creation(s));
                    lemma_session_sum_prefix(sessions@, i as int, |s: Session| sel_cache_read(s));
                }
                let old_sm = &summaries[k];
                let updated = ProjectSummary {
                    project: old_sm.project.clone(),
                    total_minutes: old_sm.total_minutes + s.duration / 60,
                    last_activity: if s.end > old_sm.last_activity {
                        s.end
                    } else {
                        old_sm.last_activity
                    },
                    input_tokens: old_sm.input_tokens + s.input_tokens,
                    output_tokens: old_sm.output_tokens + s.output_tokens,
                    cache_creation_input_tokens: old_sm.cache_creation_input_tokens
                        + s.cache_creation_input_tokens,
                    cache_read_input_tokens: old_sm.cache_read_input_tokens
                        + s.cache_read_input_tokens,
                };
                summaries[k] = updated;
                proof {
                    assert(summaries@[k as int].project@ == sessions@[i as int].project@);
                    assert(summary_matches(t1, summaries@[k as int]));
                    assert forall|m: int|
                        0 <= m < summaries@.len() implies summary_matches(
                        t1,
                        #[trigger] summaries@[m],
                    ) by {
                        if m != k {
                            assert(summaries@[m] == pre[m]);
                            assert(pre[m].project@ != pre[k as int].project@) by {
                                if m < k {
                                    assert(pre[m].project@ != pre[k as int].project@);
                                }
                            }
                            assert(summary_matches(t, pre[m]));
                        }
                    }
                    assert(segments_sorted(summaries@)) by {
                        assert forall|a: int, b: int|
                            0 <= a < b < summaries@.len() implies lex_le(
                            segment_of(#[trigger] summaries@[a]),
                            segment_of(#[trigger] summaries@[b]),
                        ) by {
                            assert(segment_of(summaries@[a]) == segment_of(pre[a]));
                            assert(segment_of(summaries@[b]) == segment_of(pre[b]));
                        }
                    }
                    assert forall|m: int| #![trigger sessions@[m]]
                        0 <= m < i + 1 implies exists|w: int|
                        0 <= w < summaries@.len() && #[trigger] summaries@[w].project@
                            == sessions@[m].project@ by {
                        if m < i {
                            let w = choose|w: int|
                                0 <= w < pre.len() && #[trigger] pre[w].project@
                                    == sessions@[m].project@;
                            assert(summaries@[w].project@ == sessions@[m].project@);
                        } else {
                            assert(summaries@[k as int].project@ == sessions@[m].project@);
                        }
                    }
                }
            },
            None => {
                let seg = last_segment(s.project.as_str());
                let pos = summary_pos(&summaries, seg);
                let fresh = ProjectSummary {
                    project: s.project.clone(),
                    total_minutes: s.duration / 60,
                    last_activity: s.end,
                    input_tokens: s.input_tokens,
                    output_tokens: s.output_tokens,
                    cache_creation_input_tokens: s.cache_creation_input_tokens,
                    cache_read_input_tokens: s.cache_read_input_tokens,
                };
                summaries.insert(pos, fresh);
                proof {
                    let p = sessions@[i as int].project@;
                    assert(summaries@[pos as int].project@ == p);
                    assert(!has_project(t, p)) by {
                        if has_project(t, p) {
                            let w = choose|w: int| 0 <= w < t.len() && #[trigger] t[w].project@ == p;
                            assert(sessions@[w].project@ == p);
                            let v = choose|v: int|
                                0 <= v < pre.len() && #[trigger] pre[v].project@
                                    == sessions@[w].project@;
                            assert(pre[v].project@ != p);
                        }
                    }
                    lemma_project_sums_absent(t, p);
                    assert(project_sum(t, p, |s: Session| sel_minutes(s)) == 0);
                    assert(project_sum(t, p, |s: Session| sel_input(s)) == 0);
                    assert(project_sum(t, p, |s: Session| sel_output(s)) == 0);
                    assert(project_sum(t, p, |s: Session| sel_cache_creation(s)) == 0);
                    assert(project_sum(t, p, |s: Session| sel_cache_read(s)) == 0);
                    assert(summary_matches(t1, summaries@[pos as int]));
                    assert forall|m: int|
                        0 <= m < summaries@.len() implies summary_matches(
                        t1,
                        #[trigger] summaries@[m],
                    ) by {
                        if m != pos as int {
                            let oldm: int = if m < pos as int {
                                m
                            } else {
                                m - 1
                            };
                            assert(summaries@[m] == pre[oldm]);
                            assert(summary_matches(t, pre[oldm]));
                            assert(pre[oldm].project@ != p);
                        }
                    }
                    assert forall|a: int, b: int|
                        0 <= a < b < summaries@.len() implies summaries@[a].project@
                        != summaries@[b].project@ by {
                        let oa: int = if a < pos as int {
                            a
                        } else {
                            a - 1
                        };
                        let ob: int = if b < pos as int {
                            b
                        } else {
                            b - 1
                        };
                        if a == pos as int {
                            assert(pre[ob].project@ != p);
                        } else if b == pos as int {
                            assert(pre[oa].project@ != p);
                        } else {
                            assert(pre[oa].project@ != pre[ob].project@);
                        }
                    }
                    assert forall|a: int, b: int|
                        0 <= a < b < summaries@.len() implies lex_le(
                        segment_of(#[trigger] summaries@[a]),
                        segment_of(#[trigger] summaries@[b]),
                    ) by {
                        let sg = last_segment_of(p);
                        if a == pos as int {
                            assert(summaries@[b] == pre[b - 1]);
                            assert(lex_lt(sg, segment_of(pre[b - 1])));
                        } else if b == pos as int {
                            assert(summaries@[a] == pre[a]);
                            assert(lex_le(segment_of(pre[a]), sg));
                        } else {
                            let oa: int = if a < pos as int {
                                a
                            } else {
                                a - 1
                            };
                            let ob: int = if b < pos as int {
                                b
                            } else {
                                b - 1
                            };
                            assert(summaries@[a] == pre[oa]);
                            assert(summaries@[b] == pre[ob]);
                            assert(lex_le(segment_of(pre[oa]), segment_of(pre[ob])));
                        }
                    }
                    assert forall|m: int| #![trigger sessions@[m]]
                        0 <= m < i + 1 implies exists|w: int|
                        0 <= w < summaries@.len() && #[trigger] summaries@[w].project@
                            == sessions@[m].project@ by {
                        if m < i {
                            let w = choose|w: int|
                                0 <= w < pre.len() && #[trigger] pre[w].project@
                                    == sessions@[m].project@;
                            let nw: int = if w < pos as int {
                                w
                            } else {
                                w + 1
                            };
                            assert(summaries@[nw].project@ == sessions@[m].project@);
                        } else {
                            assert(summaries@[pos as int].project@ == sessions@[m].project@);
                        }
                    }
                }
            },
        }
        i = i + 1;
    }
    proof {
        assert(sessions@.take(n as int) =~= sessions@);
        assert forall|k: int| #![trigger sessions@[k]]
            0 <= k < sessions@.len() implies exists|m: int|
            0 <= m < summaries@.len() && summaries@[m].project@ == #[trigger] (
            sessions@[k].project@) by {
            let w = choose|m: int|
                0 <= m < summaries@.len() && summaries@[m].project@ == #[trigger] (
                sessions@[k].project@);
            assert(summaries@[w].project@ == sessions@[k].project@);
        }
    }
    summaries
}

/// A project absent from the sessions has empty sums.
proof fn lemma_project_sums_absent(sessions: Seq<Session>, p: Seq<char>)
    requires
        !has_project(sessions, p),
    ensures
        forall|f: spec_fn(Session) -> int| #[trigger] project_sum(sessions, p, f) == 0,
        project_last_end(sessions, p) == 0,
    decreases sessions.len(),
{
    if sessions.len() > 0 {
        assert(!has_project(sessions.drop_last(), p)) by {
            if has_project(sessions.drop_last(), p) {
                let w = choose|w: int|
                    0 <= w < sessions.drop_last().len() && #[trigger] sessions.drop_last()[w].project@
                        == p;
                assert(sessions[w].project@ == p);
            }
        }
        assert(sessions.last().project@ != p) by {
            assert(sessions[sessions.len() - 1].project@ != p);
        }
        lemma_project_sums_absent(sessions.drop_last(), p);
        assert forall|f: spec_fn(Session) -> int| #[trigger] project_sum(sessions, p, f) == 0 by {
            assert(project_sum(sessions.drop_last(), p, f) == 0);
        }
    }
}

} // verus!
