//! Activity events and session assembly.
//!
//! A source file yields an ordered sequence of timestamped messages; the
//! assembler turns that sequence into one session whose active duration
//! excludes idle gaps (inter-event intervals at or above the idle threshold).
//! Instants are seconds since the Unix epoch, UTC.

use vstd::prelude::*;

use crate::clock;
use crate::text::str_eq;

verus! {

#[derive(Debug, PartialEq, Eq, Structural, Clone, Copy)]
pub struct TokenUsage {
    pub input_tokens: u64,
    pub output_tokens: u64,
    pub cache_creation_input_tokens: u64,
    pub cache_read_input_tokens: u64,
}

#[derive(Debug)]
pub struct ParsedMessage {
    /// Seconds since the Unix epoch, UTC.
    pub timestamp: i64,
    pub cwd: Option<String>,
    pub usage: Option<TokenUsage>,
}

#[derive(Debug)]
pub struct Session {
    pub start: i64,
    pub end: i64,
    /// Active seconds: the sum of inter-event gaps below the idle threshold.
    pub duration: i64,
    pub project: String,
    pub input_tokens: u64,
    pub output_tokens: u64,
    pub cache_creation_input_tokens: u64,
    pub cache_read_input_tokens: u64,
}

impl Clone for ParsedMessage {
    fn clone(&self) -> (r: Self)
        ensures
            r.timestamp == self.timestamp,
            r.usage == self.usage,
            match (r.cwd, self.cwd) {
                (Some(a), Some(b)) => a@ == b@,
                (None, None) => true,
                _ => false,
            },
    {
        ParsedMessage {
            timestamp: self.timestamp,
            cwd: match &self.cwd {
                Some(s) => Some(s.clone()),
                None => None,
            },
            usage: self.usage,
        }
    }
}

impl Clone for Session {
    fn clone(&self) -> (r: Self)
        ensures
            r == *self,
    {
        Session {
            start: self.start,
            end: self.end,
            duration: self.duration,
            project: self.project.clone(),
            input_tokens: self.input_tokens,
            output_tokens: self.output_tokens,
            cache_creation_input_tokens: self.cache_creation_input_tokens,
            cache_read_input_tokens: self.cache_read_input_tokens,
        }
    }
}

/// The token-usage counters a log record's usage object carries; each is
/// absent when the object lacks the field.
pub struct RawUsage {
    pub input_tokens: Option<u64>,
    pub output_tokens: Option<u64>,
    pub cache_creation_input_tokens: Option<u64>,
    pub cache_read_input_tokens: Option<u64>,
}

/// The plain head fields of one decoded log line: its record type, and its
/// timestamp and working-directory texts where present.
pub struct LogHead {
    pub record_type: String,
    pub timestamp: Option<String>,
    pub cwd: Option<String>,
}

/// What the JSON decoder yields for the head of one log line: `None` where
/// the line is not a JSON object whose `type` is a string. The result depends
/// on the line alone.
pub uninterp spec fn record_head_of(line: Seq<char>) -> Option<LogHead>;

/// What the JSON decoder yields for the usage object of one log line's
/// message: `None` where the line is not JSON or its message carries no usage
/// object. The result depends on the line alone.
pub uninterp spec fn usage_fields_of(line: Seq<char>) -> Option<RawUsage>;

/// Relies on `serde_json::from_str`: decodes one JSONL line into a JSON
/// value; the accessor chain only moves the head fields into plain values.
#[verifier::external_body]
fn read_record_head(line: &str) -> (r: Option<LogHead>)
    ensures
        r == record_head_of(line@),
{
    let value: serde_json::Value = serde_json::from_str(line).ok()?;
    Some(LogHead {
        record_type: value.get("type")?.as_str()?.to_string(),
        timestamp: value.get("timestamp").and_then(|v| v.as_str()).map(|s| s.to_string()),
        cwd: value.get("cwd").and_then(|v| v.as_str()).map(|s| s.to_string()),
    })
}

/// Relies on `serde_json::from_str`: decodes one JSONL line into a JSON
/// value; the accessor chain only moves the message's usage counters into
/// plain values.
#[verifier::external_body]
fn read_usage_fields(line: &str) -> (r: Option<RawUsage>)
    ensures
        r == usage_fields_of(line@),
{
    let value: serde_json::Value = serde_json::from_str(line).ok()?;
    let u = value.get("message")?.get("usage")?;
    Some(RawUsage {
        input_tokens: u.get("input_tokens").and_then(|v| v.as_u64()),
        output_tokens: u.get("output_tokens").and_then(|v| v.as_u64()),
        cache_creation_input_tokens: u.get("cache_creation_input_tokens").and_then(|v| v.as_u64()),
        cache_read_input_tokens: u.get("cache_read_input_tokens").and_then(|v| v.as_u64()),
    })
}

/// The usage counters a record yields: both the input and output counts must
/// be present; the cache counts default to zero.
pub open spec fn spec_usage_of(usage: Option<RawUsage>) -> Option<TokenUsage> {
    match usage {
        None => None,
        Some(u) => match (u.input_tokens, u.output_tokens) {
            (Some(input), Some(output)) => Some(
                TokenUsage {
                    input_tokens: input,
                    output_tokens: output,
                    cache_creation_input_tokens: match u.cache_creation_input_tokens {
                        Some(c) => c,
                        None => 0,
                    },
                    cache_read_input_tokens: match u.cache_read_input_tokens {
                        Some(c) => c,
                        None => 0,
                    },
                },
            ),
            _ => None,
        },
    }
}

/// The message a decoded record yields: only user and assistant records with
/// a timestamp that parses as an instant produce one.
pub open spec fn spec_message_of(head: LogHead, usage: Option<RawUsage>) -> Option<ParsedMessage> {
    if head.record_type@ == "user"@ || head.record_type@ == "assistant"@ {
        match head.timestamp {
            Some(ts) => match clock::instant_of(ts@) {
                Some(t) => Some(
                    ParsedMessage { timestamp: t, cwd: head.cwd, usage: spec_usage_of(usage) },
                ),
                None => None,
            },
            None => None,
        }
    } else {
        None
    }
}

/// The message one log line yields, over what its decoded head and usage
/// fields hold.
pub open spec fn spec_parse_message(
    head: Option<LogHead>,
    usage: Option<RawUsage>,
) -> Option<ParsedMessage> {
    match head {
        Some(h) => spec_message_of(h, usage),
        None => None,
    }
}

/// Turn one decoded log record into a message: user and assistant records
/// with a parseable timestamp yield one; usage needs both the input and
/// output counters, and the cache counters default to zero.
pub fn message_of_record(head: LogHead, usage: Option<RawUsage>) -> (r: Option<ParsedMessage>)
    ensures
        r == spec_message_of(head, usage),
{
    let is_message = str_eq(head.record_type.as_str(), "user") || str_eq(
        head.record_type.as_str(),
        "assistant",
    );
    if !is_message {
        return None;
    }
    let t = match &head.timestamp {
        Some(ts) => match clock::parse_instant(ts.as_str()) {
            Some(t) => t,
            None => {
                return None;
            },
        },
        None => {
            return None;
        },
    };
    let usage = match &usage {
        Some(u) => match (u.input_tokens, u.output_tokens) {
            (Some(input), Some(output)) => Some(
                TokenUsage {
                    input_tokens: input,
                    output_tokens: output,
                    cache_creation_input_tokens: match u.cache_creation_input_tokens {
                        Some(c) => c,
                        None => 0,
                    },
                    cache_read_input_tokens: match u.cache_read_input_tokens {
                        Some(c) => c,
                        None => 0,
                    },
                },
            ),
            _ => None,
        },
        None => None,
    };
    Some(ParsedMessage { timestamp: t, cwd: head.cwd, usage })
}

/// Parse a single JSONL line into a message. `None` for unparseable lines
/// and for records that are not user or assistant messages.
pub fn parse_message(line: &str) -> (r: Option<ParsedMessage>)
    ensures
        r == spec_parse_message(record_head_of(line@), usage_fields_of(line@)),
{
    match read_record_head(line) {
        Some(head) => {
            let usage = read_usage_fields(line);
            message_of_record(head, usage)
        },
        None => None,
    }
}

/// Whether a text starts with a prefix.
pub open spec fn text_starts_with(s: Seq<char>, prefix: Seq<char>) -> bool {
    s.len() >= prefix.len() && s.subrange(0, prefix.len() as int) == prefix
}

/// Whether a text ends with a suffix.
pub open spec fn text_ends_with(s: Seq<char>, suffix: Seq<char>) -> bool {
    s.len() >= suffix.len() && s.subrange(s.len() - suffix.len(), s.len() as int) == suffix
}

/// Whether a file name names a session log: a `.jsonl` transcript that is not
/// an `agent-` side transcript.
pub open spec fn spec_is_session_file_name(name: Seq<char>) -> bool {
    text_ends_with(name, ".jsonl"@) && !text_starts_with(name, "agent-"@)
}

/// Whether a file name names a session log file.
pub fn is_session_file_name(name: &str) -> (r: bool)
    ensures
        r == spec_is_session_file_name(name@),
{
    proof {
        reveal_strlit(".jsonl");
        reveal_strlit("agent-");
    }
    let n = name.unicode_len();
    if n < 6 {
        return false;
    }
    let suffix_ok = str_eq(name.substring_char(n - 6, n), ".jsonl");
    let prefix_bad = str_eq(name.substring_char(0, 6), "agent-");
    suffix_ok && !prefix_bad
}

/// Messages appear in their authoritative temporal order.
pub open spec fn timestamps_ordered(msgs: Seq<ParsedMessage>) -> bool {
    forall|i: int, j: int|
        0 <= i <= j < msgs.len() ==> msgs[i].timestamp <= msgs[j].timestamp
}

/// Active duration of an ordered message sequence: the sum over consecutive
/// pairs of the gap between them, counting only gaps below the idle threshold.
pub open spec fn active_duration(msgs: Seq<ParsedMessage>, idle_threshold: int) -> int
    decreases msgs.len(),
{
    if msgs.len() <= 1 {
        0
    } else {
        let n = msgs.len() as int;
        let gap = msgs[n - 1].timestamp - msgs[n - 2].timestamp;
        active_duration(msgs.drop_last(), idle_threshold) + if gap < idle_threshold {
            gap
        } else {
            0
        }
    }
}

/// Sum of one usage field over the messages that carry usage information;
/// a message without usage contributes nothing.
pub open spec fn usage_sum(msgs: Seq<ParsedMessage>, field: spec_fn(TokenUsage) -> int) -> int
    decreases msgs.len(),
{
    if msgs.len() == 0 {
        0
    } else {
        usage_sum(msgs.drop_last(), field) + match msgs.last().usage {
            Some(u) => field(u),
            None => 0,
        }
    }
}

/// The working directory of the first message that carries one, as a
/// character sequence; empty if none does.
pub open spec fn first_project(msgs: Seq<ParsedMessage>) -> Seq<char>
    decreases msgs.len(),
{
    if msgs.len() == 0 {
        Seq::empty()
    } else {
        match msgs[0].cwd {
            Some(s) => s@,
            None => first_project(msgs.drop_first()),
        }
    }
}

/// The active duration of an ordered sequence is bounded by its span.
pub proof fn lemma_active_duration_bounds(msgs: Seq<ParsedMessage>, idle_threshold: int)
    requires
        timestamps_ordered(msgs),
        msgs.len() >= 1,
    ensures
        0 <= active_duration(msgs, idle_threshold),
        active_duration(msgs, idle_threshold) <= msgs.last().timestamp - msgs[0].timestamp,
    decreases msgs.len(),
{
    if msgs.len() > 1 {
        assert(timestamps_ordered(msgs.drop_last()));
        lemma_active_duration_bounds(msgs.drop_last(), idle_threshold);
    }
}

proof fn lemma_usage_sum_nonneg(msgs: Seq<ParsedMessage>, field: spec_fn(TokenUsage) -> int)
    requires
        forall|u: TokenUsage| #[trigger] field(u) >= 0,
    ensures
        usage_sum(msgs, field) >= 0,
    decreases msgs.len(),
{
    if msgs.len() > 0 {
        lemma_usage_sum_nonneg(msgs.drop_last(), field);
    }
}

/// A prefix's usage sum never exceeds the whole sequence's.
proof fn lemma_usage_sum_prefix(
    msgs: Seq<ParsedMessage>,
    i: int,
    field: spec_fn(TokenUsage) -> int,
)
    requires
        forall|u: TokenUsage| #[trigger] field(u) >= 0,
        0 <= i <= msgs.len(),
    ensures
        usage_sum(msgs.take(i), field) <= usage_sum(msgs, field),
    decreases msgs.len() - i,
{
    if i < msgs.len() {
        lemma_usage_sum_prefix(msgs, i + 1, field);
        assert(msgs.take(i + 1).drop_last() =~= msgs.take(i));
        assert(usage_sum(msgs.take(i), field) <= usage_sum(msgs.take(i + 1), field));
    } else {
        assert(msgs.take(i) =~= msgs);
    }
}

/// If no message before index `i` carries a working directory, the first
/// project of the whole sequence is the first project of the suffix at `i`.
proof fn lemma_first_project_skip(msgs: Seq<ParsedMessage>, i: int)
    requires
        0 <= i <= msgs.len(),
        forall|j: int| 0 <= j < i ==> msgs[j].cwd is None,
    ensures
        first_project(msgs) == first_project(msgs.skip(i)),
    decreases i,
{
    if i > 0 {
        lemma_first_project_skip(msgs.drop_first(), i - 1);
        assert(msgs.drop_first().skip(i - 1) =~= msgs.skip(i));
    } else {
        assert(msgs.skip(0) =~= msgs);
    }
}

pub open spec fn spec_input(u: TokenUsage) -> int {
    u.input_tokens as int
}

pub open spec fn spec_output(u: TokenUsage) -> int {
    u.output_tokens as int
}

pub open spec fn spec_cache_creation(u: TokenUsage) -> int {
    u.cache_creation_input_tokens as int
}

pub open spec fn spec_cache_read(u: TokenUsage) -> int {
    u.cache_read_input_tokens as int
}

/// Assemble an ordered message list into a session; `None` iff the list is
/// empty. Gaps of at least `idle_threshold` seconds between consecutive
/// messages are excluded from the duration (the clock pauses while idle).
pub fn assemble_session(messages: &Vec<ParsedMessage>, idle_threshold: i64) -> (r: Option<Session>)
    requires
        timestamps_ordered(messages@),
        messages@.len() > 0 ==> messages@.last().timestamp - messages@[0].timestamp <= i64::MAX,
        usage_sum(messages@, |u: TokenUsage| spec_input(u)) <= u64::MAX,
        usage_sum(messages@, |u: TokenUsage| spec_output(u)) <= u64::MAX,
        usage_sum(messages@, |u: TokenUsage| spec_cache_creation(u)) <= u64::MAX,
        usage_sum(messages@, |u: TokenUsage| spec_cache_read(u)) <= u64::MAX,
    ensures
        r is Some <==> messages@.len() > 0,
        match r {
            Some(s) => {
                &&& s.start == messages@[0].timestamp
                &&& s.end == messages@.last().timestamp
                &&& s.duration == active_duration(messages@, idle_threshold as int)
                &&& s.project@ == first_project(messages@)
                &&& s.input_tokens == usage_sum(messages@, |u: TokenUsage| spec_input(u))
                &&& s.output_tokens == usage_sum(messages@, |u: TokenUsage| spec_output(u))
                &&& s.cache_creation_input_tokens == usage_sum(
                    messages@,
                    |u: TokenUsage| spec_cache_creation(u),
                )
                &&& s.cache_read_input_tokens == usage_sum(
                    messages@,
                    |u: TokenUsage| spec_cache_read(u),
                )
            },
            None => true,
        },
{
    let n = messages.len();
    if n == 0 {
        return None;
    }
    let start = messages[0].timestamp;
    let end = messages[n - 1].timestamp;

    // Active duration: one pass over consecutive pairs.
    let mut duration: i64 = 0;
    let mut i: usize = 1;
    proof {
        assert(messages@.take(1).len() <= 1);
    }
    while i < n
        invariant
            1 <= i <= n,
            n == messages@.len(),
            timestamps_ordered(messages@),
            messages@.last().timestamp - messages@[0].timestamp <= i64::MAX,
            duration == active_duration(messages@.take(i as int), idle_threshold as int),
            0 <= duration <= messages@[i - 1].timestamp - messages@[0].timestamp,
        decreases n - i,
    {
        let gap = messages[i].timestamp - messages[i - 1].timestamp;
        proof {
            let pre = messages@.take(i as int);
            let cur = messages@.take(i + 1);
            assert(cur.drop_last() =~= pre);
            assert(cur.last() == messages@[i as int]);
            assert(cur[i - 1] == messages@[i - 1]);
        }
        if gap < idle_threshold {
            duration = duration + gap;
        }
        i = i + 1;
    }
    proof {
        assert(messages@.take(n as int) =~= messages@);
    }

    // Token sums: one pass, four accumulators.
    let mut input_tokens: u64 = 0;
    let mut output_tokens: u64 = 0;
    let mut cache_creation: u64 = 0;
    let mut cache_read: u64 = 0;
    let mut j: usize = 0;
    proof {
        assert(messages@.take(0) =~= Seq::<ParsedMessage>::empty());
    }
    while j < n
        invariant
            0 <= j <= n,
            n == messages@.len(),
            usage_sum(messages@, |u: TokenUsage| spec_input(u)) <= u64::MAX,
            usage_sum(messages@, |u: TokenUsage| spec_output(u)) <= u64::MAX,
            usage_sum(messages@, |u: TokenUsage| spec_cache_creation(u)) <= u64::MAX,
            usage_sum(messages@, |u: TokenUsage| spec_cache_read(u)) <= u64::MAX,
            input_tokens == usage_sum(messages@.take(j as int), |u: TokenUsage| spec_input(u)),
            output_tokens == usage_sum(messages@.take(j as int), |u: TokenUsage| spec_output(u)),
            cache_creation == usage_sum(
                messages@.take(j as int),
                |u: TokenUsage| spec_cache_creation(u),
            ),
            cache_read == usage_sum(messages@.take(j as int), |u: TokenUsage| spec_cache_read(u)),
        decreases n - j,
    {
        proof {
            let cur = messages@.take(j + 1);
            assert(cur.drop_last() =~= messages@.take(j as int));
            assert(cur.last() == messages@[j as int]);
            lemma_usage_sum_prefix(messages@, j + 1, |u: TokenUsage| spec_input(u));
            lemma_usage_sum_prefix(messages@, j + 1, |u: TokenUsage| spec_output(u));
            lemma_usage_sum_prefix(messages@, j + 1, |u: TokenUsage| spec_cache_creation(u));
            lemma_usage_sum_prefix(messages@, j + 1, |u: TokenUsage| spec_cache_read(u));
            lemma_usage_sum_nonneg(messages@.take(j as int), |u: TokenUsage| spec_input(u));
            lemma_usage_sum_nonneg(messages@.take(j as int), |u: TokenUsage| spec_output(u));
            lemma_usage_sum_nonneg(
                messages@.take(j as int),
                |u: TokenUsage| spec_cache_creation(u),
            );
            lemma_usage_sum_nonneg(messages@.take(j as int), |u: TokenUsage| spec_cache_read(u));
        }
        match &messages[j].usage {
            Some(u) => {
                input_tokens = input_tokens + u.input_tokens;
                output_tokens = output_tokens + u.output_tokens;
                cache_creation = cache_creation + u.cache_creation_input_tokens;
                cache_read = cache_read + u.cache_read_input_tokens;
            },
            None => {},
        }
        j = j + 1;
    }
    proof {
        assert(messages@.take(n as int) =~= messages@);
    }

    // Project: the first message that carries a working directory.
    let mut project: Option<String> = None;
    let mut k: usize = 0;
    while k < n && project.is_none()
        invariant
            0 <= k <= n,
            n == messages@.len(),
            match project {
                None => forall|m: int| 0 <= m < k ==> messages@[m].cwd is None,
                Some(p) => p@ == first_project(messages@),
            },
        decreases n - k,
    {
        match &messages[k].cwd {
            Some(s) => {
                project = Some(s.clone());
                proof {
                    lemma_first_project_skip(messages@, k as int);
                    assert(messages@.skip(k as int)[0] == messages@[k as int]);
                }
            },
            None => {},
        }
        k = k + 1;
    }
    let project: String = match project {
        Some(p) => p,
        None => {
            proof {
                lemma_first_project_skip(messages@, n as int);
                assert(messages@.skip(n as int).len() == 0);
            }
            String::new()
        },
    };

    Some(
        Session {
            start,
            end,
            duration,
            project,
            input_tokens,
            output_tokens,
            cache_creation_input_tokens: cache_creation,
            cache_read_input_tokens: cache_read,
        },
    )
}

} // verus!
