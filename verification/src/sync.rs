//! The allocation engine and the sync driver.
//!
//! The engine turns the sessions tracked on one day into ordered, contiguous,
//! gap-free time blocks per destination inside the workday window, splitting
//! the window proportionally to tracked time with floor rounding; the
//! rounding remainder goes to the last destination in sorted order. The
//! driver walks unsynced weekdays chronologically and commits completion
//! marks incrementally, one entry per posted block and one mark per finished
//! day, so an aborted run resumes where it stopped.

use vstd::arithmetic::div_mod::lemma_add_mod_noop;
use vstd::arithmetic::div_mod::lemma_mod_bound;
use vstd::arithmetic::div_mod::lemma_mod_sub_multiples_vanish;
use vstd::arithmetic::div_mod::lemma_small_mod;
use vstd::arithmetic::div_mod::lemma_div_multiples_vanish;
use vstd::arithmetic::div_mod::lemma_div_pos_is_pos;
use vstd::arithmetic::div_mod::lemma_fundamental_div_mod;
use vstd::arithmetic::div_mod::lemma_multiply_divide_le;
use vstd::arithmetic::mul::lemma_mul_inequality;
use vstd::arithmetic::mul::lemma_mul_is_commutative;
use vstd::arithmetic::mul::lemma_mul_is_distributive_add;
use vstd::arithmetic::mul::lemma_mul_nonnegative;
use vstd::arithmetic::mul::lemma_mul_strict_inequality;
use vstd::prelude::*;

use crate::clock;
use crate::parser::Session;
use crate::store::Store;
use crate::text::lemma_lex_transitive;
use crate::text::lemma_lex_trichotomy;
use crate::text::lex_lt;
use crate::text::str_eq;
use crate::text::str_lt;
use crate::text::strings_view;

verus! {

/// A contiguous time block assigned to one destination.
pub struct Allocation {
    pub project_id: String,
    pub start: i64,
    pub end: i64,
}

/// The allocation engine's output: ordered time blocks, and the project names
/// whose time was excluded because they are unmapped and no fallback is
/// configured.
pub struct AllocResult {
    pub allocations: Vec<Allocation>,
    pub skipped: Vec<String>,
}

/// Routing from session project names to destination ids.
pub struct ProjectMapping {
    entries: Vec<(String, String)>,
}

impl ProjectMapping {
    pub closed spec fn entries_seq(self) -> Seq<(String, String)> {
        self.entries@
    }

    /// Keys are unique.
    pub open spec fn wf(self) -> bool {
        forall|i: int, j: int|
            0 <= i < j < self.entries_seq().len() ==> self.entries_seq()[i].0@
                != self.entries_seq()[j].0@
    }

    pub open spec fn maps(self, key: Seq<char>) -> bool {
        exists|i: int|
            0 <= i < self.entries_seq().len() && #[trigger] self.entries_seq()[i].0@ == key
    }

    pub open spec fn value_of(self, key: Seq<char>) -> Seq<char> {
        self.entries_seq()[choose|i: int|
            0 <= i < self.entries_seq().len() && #[trigger] self.entries_seq()[i].0@ == key].1@
    }

    pub fn new() -> (m: ProjectMapping)
        ensures
            m.wf(),
            forall|k: Seq<char>| !m.maps(k),
    {
        ProjectMapping { entries: Vec::new() }
    }

    /// Insert or replace the destination id for a project name.
    #[verifier::loop_isolation(false)]
    pub fn insert(&mut self, key: String, value: String)
        requires
            old(self).wf(),
        ensures
            final(self).wf(),
            final(self).maps(key@),
            final(self).value_of(key@) == value@,
            forall|k: Seq<char>|
                k != key@ ==> final(self).maps(k) == old(self).maps(k) && (old(self).maps(k)
                    ==> final(self).value_of(k) == old(self).value_of(k)),
    {
        let n = self.entries.len();
        let mut i: usize = 0;
        while i < n
            invariant
                *self == *old(self),
                0 <= i <= n,
                forall|j: int| 0 <= j < i ==> self.entries_seq()[j].0@ != key@,
            decreases n - i,
        {
            if str_eq(self.entries[i].0.as_str(), key.as_str()) {
                let ghost pre = *self;
                self.entries[i] = (key, value);
                proof {
                    lemma_mapping_frame(pre, *self, i as int);
                }
                return ;
            }
            i = i + 1;
        }
        let ghost pre = *self;
        self.entries.push((key, value));
        proof {
            assert(!pre.maps(key@));
            assert forall|k: Seq<char>| k != key@ implies self.maps(k) == pre.maps(k) && (pre.maps(
                k,
            ) ==> self.value_of(k) == pre.value_of(k)) by {
                lemma_mapping_push_frame(pre, *self, k);
            }
            assert(self.entries_seq()[n as int].0@ == key@);
        }
    }

    /// The destination id mapped for a project name, if any.
    pub fn get(&self, key: &str) -> (r: Option<&String>)
        requires
            self.wf(),
        ensures
            match r {
                Some(v) => self.maps(key@) && v@ == self.value_of(key@),
                None => !self.maps(key@),
            },
    {
        let n = self.entries.len();
        let mut i: usize = 0;
        while i < n
            invariant
                n == self.entries_seq().len(),
                self.wf(),
                0 <= i <= n,
                forall|j: int| 0 <= j < i ==> self.entries_seq()[j].0@ != key@,
            decreases n - i,
        {
            if str_eq(self.entries[i].0.as_str(), key) {
                proof {
                    let w = choose|j: int|
                        0 <= j < self.entries_seq().len() && #[trigger] self.entries_seq()[j].0@
                            == key@;
                    if w != i as int {
                        if w < i as int {
                            assert(self.entries_seq()[w].0@ != self.entries_seq()[i as int].0@);
                        } else {
                            assert(self.entries_seq()[i as int].0@ != self.entries_seq()[w].0@);
                        }
                    }
                }
                return Some(&self.entries[i].1);
            }
            i = i + 1;
        }
        None
    }
}

// --- the engine's mathematical model ---

/// The fallback destination, as a character sequence.
pub open spec fn other_view(other: Option<String>) -> Option<Seq<char>> {
    match other {
        Some(s) => Some(s@),
        None => None,
    }
}

/// The destination a session's time goes to: its mapped id, else the fallback
/// id, else none (the session is skipped).
pub open spec fn dest_of(s: Session, m: ProjectMapping, other: Option<Seq<char>>) -> Option<
    Seq<char>,
> {
    if m.maps(s.project@) {
        Some(m.value_of(s.project@))
    } else {
        other
    }
}

/// Strictly ascending in lexicographic order (hence all distinct).
pub open spec fn sorted_strict(ids: Seq<Seq<char>>) -> bool {
    forall|i: int, j: int| 0 <= i < j < ids.len() ==> lex_lt(ids[i], ids[j])
}

/// Insert an id into an ascending id list, keeping it ascending.
pub open spec fn sorted_insert(ids: Seq<Seq<char>>, id: Seq<char>) -> Seq<Seq<char>>
    decreases ids.len(),
{
    if ids.len() == 0 {
        seq![id]
    } else if lex_lt(id, ids[0]) {
        seq![id] + ids
    } else {
        seq![ids[0]] + sorted_insert(ids.drop_first(), id)
    }
}

/// The destination ids the sessions resolve to, in ascending order.
pub open spec fn dest_ids(sessions: Seq<Session>, m: ProjectMapping, other: Option<Seq<char>>) -> Seq<
    Seq<char>,
>
    decreases sessions.len(),
{
    if sessions.len() == 0 {
        Seq::empty()
    } else {
        let prev = dest_ids(sessions.drop_last(), m, other);
        match dest_of(sessions.last(), m, other) {
            Some(id) => if prev.contains(id) {
                prev
            } else {
                sorted_insert(prev, id)
            },
            None => prev,
        }
    }
}

/// Seconds of tracked time resolving to one destination id.
pub open spec fn bucket_secs(
    sessions: Seq<Session>,
    m: ProjectMapping,
    other: Option<Seq<char>>,
    id: Seq<char>,
) -> int
    decreases sessions.len(),
{
    if sessions.len() == 0 {
        0
    } else {
        bucket_secs(sessions.drop_last(), m, other, id) + match dest_of(sessions.last(), m, other) {
            Some(d) => if d == id {
                sessions.last().duration as int
            } else {
                0
            },
            None => 0,
        }
    }
}

/// Seconds of tracked time that resolve to any destination at all.
pub open spec fn included_secs(
    sessions: Seq<Session>,
    m: ProjectMapping,
    other: Option<Seq<char>>,
) -> int
    decreases sessions.len(),
{
    if sessions.len() == 0 {
        0
    } else {
        included_secs(sessions.drop_last(), m, other) + match dest_of(
            sessions.last(),
            m,
            other,
        ) {
            Some(_) => sessions.last().duration as int,
            None => 0,
        }
    }
}

/// Seconds of tracked time over all sessions.
pub open spec fn sum_durations(sessions: Seq<Session>) -> int
    decreases sessions.len(),
{
    if sessions.len() == 0 {
        0
    } else {
        sum_durations(sessions.drop_last()) + sessions.last().duration as int
    }
}

/// The project names whose time was excluded, in first-occurrence order,
/// deduplicated.
pub open spec fn skipped_projects(
    sessions: Seq<Session>,
    m: ProjectMapping,
    other: Option<Seq<char>>,
) -> Seq<Seq<char>>
    decreases sessions.len(),
{
    if sessions.len() == 0 {
        Seq::empty()
    } else {
        let prev = skipped_projects(sessions.drop_last(), m, other);
        match dest_of(sessions.last(), m, other) {
            Some(_) => prev,
            None => if prev.contains(sessions.last().project@) {
                prev
            } else {
                prev.push(sessions.last().project@)
            },
        }
    }
}

// --- facts about the ordered id list ---

/// `sorted_insert` holds exactly the old ids and the new one.
pub proof fn lemma_sorted_insert_contains(ids: Seq<Seq<char>>, id: Seq<char>)
    ensures
        forall|y: Seq<char>|
            #[trigger] sorted_insert(ids, id).contains(y) <==> ids.contains(y) || y == id,
        sorted_insert(ids, id).len() == ids.len() + 1,
    decreases ids.len(),
{
    if ids.len() == 0 {
        assert forall|y: Seq<char>|
            #[trigger] sorted_insert(ids, id).contains(y) <==> ids.contains(y) || y == id by {
            if y == id {
                assert(sorted_insert(ids, id)[0] == id);
            }
        }
    } else if lex_lt(id, ids[0]) {
        let out = seq![id] + ids;
        assert forall|y: Seq<char>| #[trigger] out.contains(y) <==> ids.contains(y) || y == id by {
            if ids.contains(y) {
                let i = choose|i: int| 0 <= i < ids.len() && ids[i] == y;
                assert(out[i + 1] == y);
                assert(out.contains(y));
            }
            if y == id {
                assert(out[0] == y);
                assert(out.contains(y));
            }
            if out.contains(y) && y != id {
                let i = choose|i: int| 0 <= i < out.len() && out[i] == y;
                assert(i > 0);
                assert(ids[i - 1] == y);
                assert(ids.contains(y));
            }
        }
    } else {
        lemma_sorted_insert_contains(ids.drop_first(), id);
        let rec = sorted_insert(ids.drop_first(), id);
        let out = seq![ids[0]] + rec;
        assert forall|y: Seq<char>| #[trigger] out.contains(y) <==> ids.contains(y) || y == id by {
            if ids.contains(y) {
                let i = choose|i: int| 0 <= i < ids.len() && ids[i] == y;
                if i == 0 {
                    assert(out[0] == y);
                    assert(out.contains(y));
                } else {
                    assert(ids.drop_first()[i - 1] == y);
                    assert(ids.drop_first().contains(y));
                    assert(rec.contains(y));
                    let j = choose|j: int| 0 <= j < rec.len() && rec[j] == y;
                    assert(out[j + 1] == y);
                    assert(out.contains(y));
                }
            }
            if y == id {
                assert(rec.contains(y));
                let j = choose|j: int| 0 <= j < rec.len() && rec[j] == y;
                assert(out[j + 1] == y);
                assert(out.contains(y));
            }
            if out.contains(y) && y != id {
                let i = choose|i: int| 0 <= i < out.len() && out[i] == y;
                if i == 0 {
                    assert(ids[0] == y);
                    assert(ids.contains(y));
                } else {
                    assert(rec[i - 1] == y);
                    assert(rec.contains(y));
                    assert(ids.drop_first().contains(y));
                    let k = choose|k: int|
                        0 <= k < ids.drop_first().len() && ids.drop_first()[k] == y;
                    assert(ids[k + 1] == y);
                    assert(ids.contains(y));
                }
            }
        }
    }
}

/// Inserting a fresh id keeps the list strictly ascending.
pub proof fn lemma_sorted_insert_sorted(ids: Seq<Seq<char>>, id: Seq<char>)
    requires
        sorted_strict(ids),
        !ids.contains(id),
    ensures
        sorted_strict(sorted_insert(ids, id)),
    decreases ids.len(),
{
    lemma_sorted_insert_contains(ids, id);
    if ids.len() == 0 {
    } else if lex_lt(id, ids[0]) {
        let out = seq![id] + ids;
        assert forall|a: int, b: int| 0 <= a < b < out.len() implies lex_lt(out[a], out[b]) by {
            if a == 0 {
                if b > 1 {
                    lemma_lex_transitive(id, ids[0], ids[b - 1]);
                }
            } else {
                assert(lex_lt(ids[a - 1], ids[b - 1]));
            }
        }
    } else {
        assert(ids[0] != id) by {
            assert(ids.contains(ids[0]));
        }
        lemma_lex_trichotomy(id, ids[0]);
        assert(lex_lt(ids[0], id));
        assert(sorted_strict(ids.drop_first())) by {
            assert forall|a: int, b: int|
                0 <= a < b < ids.drop_first().len() implies lex_lt(
                ids.drop_first()[a],
                ids.drop_first()[b],
            ) by {
                assert(lex_lt(ids[a + 1], ids[b + 1]));
            }
        }
        assert(!ids.drop_first().contains(id)) by {
            if ids.drop_first().contains(id) {
                let k = choose|k: int| 0 <= k < ids.drop_first().len() && ids.drop_first()[k] == id;
                assert(ids[k + 1] == id);
                assert(ids.contains(id));
            }
        }
        lemma_sorted_insert_sorted(ids.drop_first(), id);
        lemma_sorted_insert_contains(ids.drop_first(), id);
        let rec = sorted_insert(ids.drop_first(), id);
        let out = seq![ids[0]] + rec;
        assert forall|a: int, b: int| 0 <= a < b < out.len() implies lex_lt(out[a], out[b]) by {
            if a == 0 {
                assert(rec.contains(rec[b - 1]));
                if rec[b - 1] == id {
                    assert(lex_lt(ids[0], id));
                } else {
                    assert(ids.drop_first().contains(rec[b - 1]));
                    let k = choose|k: int|
                        0 <= k < ids.drop_first().len() && ids.drop_first()[k] == rec[b - 1];
                    assert(ids[k + 1] == rec[b - 1]);
                    assert(lex_lt(ids[0], ids[k + 1]));
                }
            } else {
                assert(lex_lt(rec[a - 1], rec[b - 1]));
            }
        }
    }
}

/// Inserting at the position that keeps the list ascending is the same as
/// `sorted_insert`.
pub proof fn lemma_sorted_insert_at(ids: Seq<Seq<char>>, id: Seq<char>, k: int)
    requires
        0 <= k <= ids.len(),
        forall|j: int| 0 <= j < k ==> lex_lt(#[trigger] ids[j], id),
        forall|j: int| k <= j < ids.len() ==> lex_lt(id, #[trigger] ids[j]),
    ensures
        sorted_insert(ids, id) == ids.insert(k, id),
    decreases ids.len(),
{
    if ids.len() == 0 {
        assert(sorted_insert(ids, id) =~= ids.insert(0, id));
    } else if k == 0 {
        assert(lex_lt(id, ids[0]));
        assert(seq![id] + ids =~= ids.insert(0, id));
    } else {
        assert(lex_lt(ids[0], id));
        lemma_lex_trichotomy(id, ids[0]);
        assert(!lex_lt(id, ids[0]));
        assert forall|j: int| 0 <= j < k - 1 implies lex_lt(#[trigger] ids.drop_first()[j], id) by {
            assert(ids.drop_first()[j] == ids[j + 1]);
        }
        assert forall|j: int|
            k - 1 <= j < ids.drop_first().len() implies lex_lt(
            id,
            #[trigger] ids.drop_first()[j],
        ) by {
            assert(ids.drop_first()[j] == ids[j + 1]);
        }
        lemma_sorted_insert_at(ids.drop_first(), id, k - 1);
        assert(seq![ids[0]] + ids.drop_first().insert(k - 1, id) =~= ids.insert(k, id));
    }
}

/// The ids of every session sequence are strictly ascending.
pub proof fn lemma_dest_ids_sorted(sessions: Seq<Session>, m: ProjectMapping, other: Option<Seq<char>>)
    ensures
        sorted_strict(dest_ids(sessions, m, other)),
    decreases sessions.len(),
{
    if sessions.len() > 0 {
        lemma_dest_ids_sorted(sessions.drop_last(), m, other);
        let prev = dest_ids(sessions.drop_last(), m, other);
        match dest_of(sessions.last(), m, other) {
            Some(id) => {
                if !prev.contains(id) {
                    lemma_sorted_insert_sorted(prev, id);
                }
            },
            None => {},
        }
    }
}

/// An id absent from the id list has an empty bucket.
pub proof fn lemma_bucket_absent_zero(
    sessions: Seq<Session>,
    m: ProjectMapping,
    other: Option<Seq<char>>,
    id: Seq<char>,
)
    requires
        !dest_ids(sessions, m, other).contains(id),
    ensures
        bucket_secs(sessions, m, other, id) == 0,
    decreases sessions.len(),
{
    if sessions.len() > 0 {
        let prev = dest_ids(sessions.drop_last(), m, other);
        match dest_of(sessions.last(), m, other) {
            Some(d) => {
                if prev.contains(d) {
                    assert(!prev.contains(id));
                    assert(d != id);
                } else {
                    lemma_sorted_insert_contains(prev, d);
                    assert(!prev.contains(id));
                    assert(d != id);
                }
                lemma_bucket_absent_zero(sessions.drop_last(), m, other, id);
            },
            None => {
                lemma_bucket_absent_zero(sessions.drop_last(), m, other, id);
            },
        }
    }
}

// --- proportional shares ---

/// The floor of a destination's proportional share of the workday:
/// `floor(wd * b / total)`, and zero when nothing was tracked.
pub open spec fn floor_share(wd: int, b: int, total: int) -> int {
    if total > 0 {
        (wd * b) / total
    } else {
        0
    }
}

/// The cumulative floor shares of the first `j` destinations in id order.
pub open spec fn share_sum(
    sessions: Seq<Session>,
    m: ProjectMapping,
    other: Option<Seq<char>>,
    wd: int,
    j: int,
) -> int
    decreases j,
{
    if j <= 0 {
        0
    } else {
        share_sum(sessions, m, other, wd, j - 1) + floor_share(
            wd,
            bucket_secs(sessions, m, other, dest_ids(sessions, m, other)[j - 1]),
            included_secs(sessions, m, other),
        )
    }
}

/// For a positive divisor, floor division is superadditive on non-negative
/// numerators.
proof fn lemma_div_superadd(x: int, y: int, t: int)
    requires
        t > 0,
        x >= 0,
        y >= 0,
    ensures
        x / t + y / t <= (x + y) / t,
{
    lemma_fundamental_div_mod(x, t);
    lemma_fundamental_div_mod(y, t);
    lemma_fundamental_div_mod(x + y, t);
    lemma_add_mod_noop(x, y, t);
    lemma_mod_bound(x, t);
    lemma_mod_bound(y, t);
    lemma_mod_bound(x + y, t);
    lemma_mod_bound(x % t + y % t, t);
    // x % t + y % t differs from (x + y) % t by a multiple of t in [0, 2t);
    // both versions of the remainder are non-negative, so the slack
    // r = x % t + y % t - (x + y) % t is non-negative.
    let r = x % t + y % t - (x + y) % t;
    assert((x % t + y % t) % t == (x + y) % t);
    if x % t + y % t < t {
        lemma_small_mod((x % t + y % t) as nat, t as nat);
    } else {
        lemma_mod_sub_multiples_vanish(x % t + y % t, t);
        lemma_small_mod((x % t + y % t - t) as nat, t as nat);
    }
    assert(r >= 0);
    assert(t * ((x + y) / t) == t * (x / t) + t * (y / t) + r);
    lemma_mul_is_distributive_add(t, x / t, y / t);
    assert(t * (x / t + y / t) <= t * ((x + y) / t));
    if (x + y) / t < x / t + y / t {
        // A smaller quotient would contradict the multiple inequality above.
        lemma_mul_strict_inequality((x + y) / t, x / t + y / t, t);
        lemma_mul_is_commutative((x + y) / t, t);
        lemma_mul_is_commutative(x / t + y / t, t);
        assert(false);
    }
}

/// Floor shares are non-negative and never exceed the workday, for bucket
/// seconds bounded by the tracked total.
proof fn lemma_floor_share_bounds(wd: int, b: int, t: int)
    requires
        wd >= 0,
        0 <= b,
        b <= t || t <= 0,
    ensures
        0 <= floor_share(wd, b, t),
        b <= t ==> floor_share(wd, b, t) <= wd,
{
    if t > 0 {
        lemma_mul_nonnegative(wd, b);
        lemma_div_pos_is_pos(wd * b, t);
        if b <= t {
            lemma_mul_inequality(b, t, wd);
            lemma_mul_is_commutative(b, wd);
            lemma_mul_is_commutative(t, wd);
            lemma_multiply_divide_le(wd * b, t, wd);
        }
    }
}

/// Floor shares are superadditive: splitting seconds between two
/// destinations never allocates more than keeping them together.
proof fn lemma_floor_share_superadd(wd: int, a: int, b: int, t: int)
    requires
        wd >= 0,
        a >= 0,
        b >= 0,
    ensures
        floor_share(wd, a, t) + floor_share(wd, b, t) <= floor_share(wd, a + b, t),
{
    if t > 0 {
        lemma_mul_nonnegative(wd, a);
        lemma_mul_nonnegative(wd, b);
        lemma_mul_is_distributive_add(wd, a, b);
        lemma_div_superadd(wd * a, wd * b, t);
    }
}

// --- the in-progress bucket vector ---

/// The destination ids a bucket vector holds, in order.
pub open spec fn bucket_ids(bs: Seq<(String, i64)>) -> Seq<Seq<char>> {
    bs.map_values(|e: (String, i64)| e.0@)
}

/// Sum of the first `j` bucket values.
pub open spec fn prefix_values(bs: Seq<(String, i64)>, j: int) -> int
    decreases j,
{
    if j <= 0 {
        0
    } else {
        prefix_values(bs, j - 1) + bs[j - 1].1 as int
    }
}

/// Cumulative floor shares of the first `j` buckets of a fixed vector.
pub open spec fn shares_before(bs: Seq<(String, i64)>, wd: int, total: int, j: int) -> int
    decreases j,
{
    if j <= 0 {
        0
    } else {
        shares_before(bs, wd, total, j - 1) + floor_share(wd, bs[j - 1].1 as int, total)
    }
}

proof fn lemma_prefix_values_update(bs: Seq<(String, i64)>, k: int, e: (String, i64), j: int)
    requires
        0 <= k < bs.len(),
        0 <= j <= bs.len(),
    ensures
        prefix_values(bs.update(k, e), j) == prefix_values(bs, j) + if k < j {
            e.1 - bs[k].1
        } else {
            0
        },
    decreases j,
{
    if j > 0 {
        lemma_prefix_values_update(bs, k, e, j - 1);
    }
}

proof fn lemma_prefix_values_insert(bs: Seq<(String, i64)>, k: int, e: (String, i64), j: int)
    requires
        0 <= k <= bs.len(),
        0 <= j <= bs.len() + 1,
    ensures
        prefix_values(bs.insert(k, e), j) == if j <= k {
            prefix_values(bs, j)
        } else {
            prefix_values(bs, j - 1) + e.1
        },
    decreases j,
{
    if j > 0 {
        lemma_prefix_values_insert(bs, k, e, j - 1);
    }
}

/// With non-negative values, prefix sums grow towards the total.
proof fn lemma_prefix_values_le(bs: Seq<(String, i64)>, j: int, l: int)
    requires
        forall|k: int| 0 <= k < bs.len() ==> bs[k].1 >= 0,
        0 <= j <= l <= bs.len(),
    ensures
        prefix_values(bs, j) <= prefix_values(bs, l),
        0 <= prefix_values(bs, j),
    decreases l - j, j,
{
    if j < l {
        lemma_prefix_values_le(bs, j + 1, l);
        lemma_prefix_values_le(bs, j, j);
    } else if j > 0 {
        lemma_prefix_values_le(bs, j - 1, j - 1);
    }
}

/// Cumulative floor shares stay within the floor share of the summed values.
proof fn lemma_shares_before_bound(bs: Seq<(String, i64)>, wd: int, total: int, j: int)
    requires
        wd >= 0,
        forall|k: int| 0 <= k < bs.len() ==> bs[k].1 >= 0,
        0 <= j <= bs.len(),
    ensures
        0 <= shares_before(bs, wd, total, j) <= floor_share(wd, prefix_values(bs, j), total),
    decreases j,
{
    if j > 0 {
        lemma_shares_before_bound(bs, wd, total, j - 1);
        lemma_prefix_values_le(bs, j - 1, j - 1);
        lemma_floor_share_superadd(wd, prefix_values(bs, j - 1), bs[j - 1].1 as int, total);
        if total > 0 {
            lemma_mul_nonnegative(wd, bs[j - 1].1 as int);
            lemma_div_pos_is_pos(wd * (bs[j - 1].1 as int), total);
        }
    }
}

// --- bounds on the tracked totals ---

proof fn lemma_sum_durations_nonneg(sessions: Seq<Session>)
    requires
        forall|k: int| 0 <= k < sessions.len() ==> sessions[k].duration >= 0,
    ensures
        0 <= sum_durations(sessions),
    decreases sessions.len(),
{
    if sessions.len() > 0 {
        lemma_sum_durations_nonneg(sessions.drop_last());
    }
}

proof fn lemma_sum_durations_prefix(sessions: Seq<Session>, i: int)
    requires
        forall|k: int| 0 <= k < sessions.len() ==> sessions[k].duration >= 0,
        0 <= i <= sessions.len(),
    ensures
        sum_durations(sessions.take(i)) <= sum_durations(sessions),
    decreases sessions.len() - i,
{
    if i < sessions.len() {
        lemma_sum_durations_prefix(sessions, i + 1);
        assert(sessions.take(i + 1).drop_last() =~= sessions.take(i));
    } else {
        assert(sessions.take(i) =~= sessions);
    }
}

/// The included seconds never exceed the summed durations.
proof fn lemma_included_le_sum(sessions: Seq<Session>, m: ProjectMapping, other: Option<Seq<char>>)
    requires
        forall|k: int| 0 <= k < sessions.len() ==> sessions[k].duration >= 0,
    ensures
        0 <= included_secs(sessions, m, other) <= sum_durations(sessions),
    decreases sessions.len(),
{
    if sessions.len() > 0 {
        lemma_included_le_sum(sessions.drop_last(), m, other);
    }
}

// --- executable scan helpers ---

/// Whether a string list holds the given text.
fn contains_string(v: &Vec<String>, s: &str) -> (r: bool)
    ensures
        r == strings_view(v@).contains(s@),
{
    let n = v.len();
    let mut i: usize = 0;
    while i < n
        invariant
            n == v@.len(),
            0 <= i <= n,
            forall|j: int| 0 <= j < i ==> strings_view(v@)[j] != s@,
        decreases n - i,
    {
        if str_eq(v[i].as_str(), s) {
            proof {
                assert(strings_view(v@)[i as int] == s@);
            }
            return true;
        }
        i = i + 1;
    }
    proof {
        if strings_view(v@).contains(s@) {
            let j = choose|j: int| 0 <= j < strings_view(v@).len() && strings_view(v@)[j] == s@;
            assert(strings_view(v@)[j] != s@);
        }
    }
    false
}

/// Where an id sits, or belongs, in an ascending bucket vector: either the
/// index of the matching bucket, or the insertion position that keeps the
/// vector ascending.
fn bucket_pos(buckets: &Vec<(String, i64)>, id: &str) -> (r: (usize, bool))
    requires
        sorted_strict(bucket_ids(buckets@)),
    ensures
        r.1 ==> r.0 < buckets@.len() && buckets@[r.0 as int].0@ == id@,
        !r.1 ==> r.0 <= buckets@.len() && (forall|j: int|
            0 <= j < r.0 ==> lex_lt(#[trigger] bucket_ids(buckets@)[j], id@)) && (forall|j: int|
            r.0 <= j < buckets@.len() ==> lex_lt(id@, #[trigger] bucket_ids(buckets@)[j])),
    decreases buckets@.len(),
{
    let n = buckets.len();
    let mut i: usize = 0;
    while i < n
        invariant
            n == buckets@.len(),
            sorted_strict(bucket_ids(buckets@)),
            0 <= i <= n,
            forall|j: int| 0 <= j < i ==> lex_lt(#[trigger] bucket_ids(buckets@)[j], id@),
        decreases n - i,
    {
        if str_eq(buckets[i].0.as_str(), id) {
            return (i, true);
        }
        if !str_lt(buckets[i].0.as_str(), id) {
            proof {
                lemma_lex_trichotomy(id@, bucket_ids(buckets@)[i as int]);
                assert forall|j: int|
                    i <= j < buckets@.len() implies lex_lt(
                    id@,
                    #[trigger] bucket_ids(buckets@)[j],
                ) by {
                    if j > i {
                        lemma_lex_transitive(
                            id@,
                            bucket_ids(buckets@)[i as int],
                            bucket_ids(buckets@)[j],
                        );
                    }
                }
            }
            return (i, false);
        }
        i = i + 1;
    }
    (n, false)
}

// --- the engine's contract and implementation ---

/// What the allocation list for given inputs must be: one block per
/// destination id in ascending order, laid out contiguously from the workday
/// start; each block but the last spans its destination's floor share of the
/// window, and the last ends exactly at the workday end, absorbing the
/// rounding remainder.
pub open spec fn allocations_match(
    allocs: Seq<Allocation>,
    sessions: Seq<Session>,
    m: ProjectMapping,
    other: Option<Seq<char>>,
    ws: int,
    we: int,
) -> bool {
    let ids = dest_ids(sessions, m, other);
    let wd = we - ws;
    &&& allocs.len() == ids.len()
    &&& forall|k: int| 0 <= k < allocs.len() ==> (#[trigger] allocs[k].project_id)@ == ids[k]
    &&& forall|k: int|
        0 <= k < allocs.len() ==> (#[trigger] allocs[k]).start == ws + share_sum(
            sessions,
            m,
            other,
            wd,
            k,
        )
    &&& forall|k: int|
        0 <= k < allocs.len() - 1 ==> (#[trigger] allocs[k]).end == ws + share_sum(
            sessions,
            m,
            other,
            wd,
            k + 1,
        )
    &&& allocs.len() > 0 ==> allocs[allocs.len() - 1].end == we
    &&& forall|k: int| 0 <= k < allocs.len() ==> (#[trigger] allocs[k]).start <= allocs[k].end
}

/// Over a bucket vector whose ids and values agree with the session model,
/// the cumulative shares agree with the model's.
proof fn lemma_shares_eq(
    bs: Seq<(String, i64)>,
    sessions: Seq<Session>,
    m: ProjectMapping,
    other: Option<Seq<char>>,
    wd: int,
    j: int,
)
    requires
        bucket_ids(bs) == dest_ids(sessions, m, other),
        forall|k: int|
            0 <= k < bs.len() ==> #[trigger] bs[k].1 as int == bucket_secs(
                sessions,
                m,
                other,
                bucket_ids(bs)[k],
            ),
        0 <= j <= bs.len(),
    ensures
        shares_before(bs, wd, included_secs(sessions, m, other), j) == share_sum(
            sessions,
            m,
            other,
            wd,
            j,
        ),
    decreases j,
{
    if j > 0 {
        lemma_shares_eq(bs, sessions, m, other, wd, j - 1);
        assert(bucket_ids(bs)[j - 1] == dest_ids(sessions, m, other)[j - 1]);
    }
}

/// Split the workday window into one contiguous block per destination,
/// proportionally to the tracked seconds routed to it, with floor rounding;
/// the rounding remainder goes to the last destination in ascending id order.
/// Sessions of unmapped projects are routed to the fallback destination, or,
/// when none is configured, excluded entirely and their project names
/// reported in first-occurrence order.
#[verifier::loop_isolation(false)]
pub fn compute_allocations(
    sessions: &Vec<Session>,
    project_mapping: &ProjectMapping,
    other_project_id: &Option<String>,
    work_day_start: i64,
    work_day_end: i64,
) -> (r: AllocResult)
    requires
        project_mapping.wf(),
        work_day_start < work_day_end,
        work_day_end - work_day_start <= i64::MAX,
        forall|k: int| 0 <= k < sessions@.len() ==> sessions@[k].duration >= 0,
        (work_day_end - work_day_start) * sum_durations(sessions@) <= i64::MAX,
    ensures
        allocations_match(
            r.allocations@,
            sessions@,
            *project_mapping,
            other_view(*other_project_id),
            work_day_start as int,
            work_day_end as int,
        ),
        strings_view(r.skipped@) == skipped_projects(
            sessions@,
            *project_mapping,
            other_view(*other_project_id),
        ),
{
    let ghost m = *project_mapping;
    let ghost ov = other_view(*other_project_id);
    let ghost wdg = work_day_end as int - work_day_start as int;

    proof {
        lemma_sum_durations_nonneg(sessions@);
        assert(sum_durations(sessions@) <= wdg * sum_durations(sessions@)) by {
            lemma_mul_inequality(1, wdg, sum_durations(sessions@));
        }
    }

    let mut buckets: Vec<(String, i64)> = Vec::new();
    let mut skipped: Vec<String> = Vec::new();
    let mut total: i64 = 0;

    let n = sessions.len();
    let mut i: usize = 0;
    proof {
        assert(sessions@.take(0) =~= Seq::<Session>::empty());
        assert(bucket_ids(buckets@) =~= dest_ids(sessions@.take(0), m, ov));
        assert(strings_view(skipped@) =~= skipped_projects(sessions@.take(0), m, ov));
    }
    while i < n
        invariant
            0 <= i <= n,
            bucket_ids(buckets@) == dest_ids(sessions@.take(i as int), m, ov),
            sorted_strict(bucket_ids(buckets@)),
            forall|k: int|
                0 <= k < buckets@.len() ==> #[trigger] buckets@[k].1 as int == bucket_secs(
                    sessions@.take(i as int),
                    m,
                    ov,
                    bucket_ids(buckets@)[k],
                ),
            forall|k: int| 0 <= k < buckets@.len() ==> (#[trigger] buckets@[k]).1 >= 0,
            total as int == included_secs(sessions@.take(i as int), m, ov),
            prefix_values(buckets@, buckets@.len() as int) == total as int,
            strings_view(skipped@) == skipped_projects(sessions@.take(i as int), m, ov),
        decreases n - i,
    {
        proof {
            let t = sessions@.take(i as int);
            let t1 = sessions@.take(i + 1);
            assert(t1.drop_last() =~= t);
            assert(t1.last() == sessions@[i as int]);
            assert(forall|k: int| 0 <= k < t1.len() ==> t1[k].duration >= 0);
            lemma_included_le_sum(t1, m, ov);
            lemma_sum_durations_prefix(sessions@, i + 1);
        }
        let s = &sessions[i];
        let dur = s.duration;
        let dest: Option<String> = match project_mapping.get(s.project.as_str()) {
            Some(v) => Some(v.clone()),
            None => match other_project_id {
                Some(o) => Some(o.clone()),
                None => None,
            },
        };
        match dest {
            Some(dest_id) => {
                proof {
                    let t = sessions@.take(i as int);
                    let t1 = sessions@.take(i + 1);
                    assert(dest_of(sessions@[i as int], m, ov) == Some(dest_id@));
                    assert(included_secs(t1, m, ov) == included_secs(t, m, ov) + dur as int);
                }
                let (pos, found) = bucket_pos(&buckets, dest_id.as_str());
                let ghost pre = buckets@;
                let ghost t = sessions@.take(i as int);
                let ghost t1 = sessions@.take(i + 1);
                if found {
                    proof {
                        assert(bucket_ids(pre)[pos as int] == dest_id@);
                        assert(dest_ids(t, m, ov).contains(dest_id@));
                        assert(dest_ids(t1, m, ov) == dest_ids(t, m, ov));
                        // The bucket's new value stays within the included total.
                        assert(buckets@[pos as int].1 as int == bucket_secs(t, m, ov, dest_id@));
                        lemma_bucket_in_included(t1, m, ov, dest_id@);
                        assert(bucket_secs(t1, m, ov, dest_id@) == bucket_secs(t, m, ov, dest_id@)
                            + dur as int);
                    }
                    let key = buckets[pos].0.clone();
                    let newv = buckets[pos].1 + dur;
                    buckets[pos] = (key, newv);
                    proof {
                        assert(bucket_ids(buckets@) =~= bucket_ids(pre));
                        lemma_prefix_values_update(
                            pre,
                            pos as int,
                            buckets@[pos as int],
                            pre.len() as int,
                        );
                        assert forall|k: int|
                            0 <= k < buckets@.len() implies #[trigger] buckets@[k].1 as int
                            == bucket_secs(t1, m, ov, bucket_ids(buckets@)[k]) by {
                            if k != pos as int {
                                lemma_lex_trichotomy(
                                    bucket_ids(buckets@)[k],
                                    bucket_ids(buckets@)[pos as int],
                                );
                                assert(bucket_ids(buckets@)[k] != dest_id@);
                                assert(bucket_secs(t1, m, ov, bucket_ids(buckets@)[k])
                                    == bucket_secs(t, m, ov, bucket_ids(buckets@)[k]));
                            }
                        }
                    }
                } else {
                    proof {
                        assert forall|j: int|
                            0 <= j < bucket_ids(pre).len() implies bucket_ids(pre)[j]
                            != dest_id@ by {
                            lemma_lex_trichotomy(bucket_ids(pre)[j], dest_id@);
                        }
                        assert(!dest_ids(t, m, ov).contains(dest_id@)) by {
                            if dest_ids(t, m, ov).contains(dest_id@) {
                                let w = choose|w: int|
                                    0 <= w < dest_ids(t, m, ov).len() && dest_ids(t, m, ov)[w]
                                        == dest_id@;
                                assert(bucket_ids(pre)[w] != dest_id@);
                            }
                        }
                        lemma_bucket_absent_zero(t, m, ov, dest_id@);
                        lemma_sorted_insert_at(bucket_ids(pre), dest_id@, pos as int);
                        lemma_sorted_insert_sorted(bucket_ids(pre), dest_id@);
                    }
                    buckets.insert(pos, (dest_id, dur));
                    proof {
                        assert(bucket_ids(buckets@) =~= bucket_ids(pre).insert(
                            pos as int,
                            buckets@[pos as int].0@,
                        ));
                        assert(bucket_ids(buckets@) == dest_ids(t1, m, ov));
                        lemma_prefix_values_insert(
                            pre,
                            pos as int,
                            buckets@[pos as int],
                            pre.len() as int + 1,
                        );
                        assert forall|k: int|
                            0 <= k < buckets@.len() implies #[trigger] buckets@[k].1 as int
                            == bucket_secs(t1, m, ov, bucket_ids(buckets@)[k]) by {
                            if k == pos as int {
                                assert(bucket_secs(t1, m, ov, dest_id@) == dur as int);
                            } else {
                                let oldk: int = if k < pos as int {
                                    k
                                } else {
                                    k - 1
                                };
                                assert(buckets@[k] == pre[oldk]);
                                assert(bucket_ids(buckets@)[k] == bucket_ids(pre)[oldk]);
                                assert(bucket_ids(pre)[oldk] != dest_id@);
                                assert(bucket_secs(t1, m, ov, bucket_ids(pre)[oldk])
                                    == bucket_secs(t, m, ov, bucket_ids(pre)[oldk]));
                            }
                        }
                    }
                }
                total = total + dur;
            },
            None => {
                proof {
                    assert(dest_of(sessions@[i as int], m, ov) is None);
                }
                if !contains_string(&skipped, s.project.as_str()) {
                    skipped.push(s.project.clone());
                    proof {
                        assert(strings_view(skipped@) =~= strings_view(skipped@.drop_last()).push(
                            s.project@,
                        ));
                    }
                }
                proof {
                    let t = sessions@.take(i as int);
                    let t1 = sessions@.take(i + 1);
                    assert(bucket_ids(buckets@) == dest_ids(t1, m, ov));
                    assert forall|k: int|
                        0 <= k < buckets@.len() implies #[trigger] buckets@[k].1 as int
                        == bucket_secs(t1, m, ov, bucket_ids(buckets@)[k]) by {
                        assert(buckets@[k].1 as int == bucket_secs(t, m, ov, bucket_ids(buckets@)[k]));
                    }
                }
            },
        }
        i = i + 1;
    }
    proof {
        assert(sessions@.take(n as int) =~= sessions@);
    }

    if buckets.len() == 0 {
        proof {
            assert(dest_ids(sessions@, m, ov).len() == 0);
        }
        return AllocResult { allocations: Vec::new(), skipped };
    }

    // Lay the blocks out contiguously from the workday start; the last block
    // absorbs the rounding remainder and ends exactly at the workday end.
    let wd = work_day_end - work_day_start;
    let nb = buckets.len();
    let ghost bseq = buckets@;
    let mut allocations: Vec<Allocation> = Vec::new();
    let mut cursor: i64 = work_day_start;
    let mut allocated: i64 = 0;
    let mut j: usize = 0;
    while j < nb
        invariant
            0 <= j <= nb,
            nb == bseq.len(),
            buckets@ == bseq,
            allocations@.len() == j,
            j < nb ==> allocated as int == shares_before(bseq, wdg, total as int, j as int)
                && cursor == work_day_start + allocated,
            0 <= allocated <= wd,
            j == nb ==> cursor == work_day_end,
            forall|k: int|
                0 <= k < j ==> (#[trigger] allocations@[k].project_id)@ == bucket_ids(bseq)[k],
            forall|k: int|
                0 <= k < j ==> (#[trigger] allocations@[k]).start == work_day_start
                    + shares_before(bseq, wdg, total as int, k),
            forall|k: int|
                0 <= k < j && k + 1 < nb ==> (#[trigger] allocations@[k]).end == work_day_start
                    + shares_before(bseq, wdg, total as int, k + 1),
            forall|k: int|
                0 <= k < j && k + 1 == nb ==> (#[trigger] allocations@[k]).end == work_day_end,
            forall|k: int|
                0 <= k < j ==> (#[trigger] allocations@[k]).start <= allocations@[k].end,
        decreases nb - j,
    {
        proof {
            lemma_prefix_values_le(bseq, j + 1, bseq.len() as int);
            lemma_prefix_values_le(bseq, j as int, j + 1);
            lemma_shares_before_bound(bseq, wdg, total as int, j + 1);
        }
        let b = buckets[j].1;
        let dur: i64;
        if j + 1 == nb {
            dur = wd - allocated;
            proof {
                lemma_shares_before_bound(bseq, wdg, total as int, j as int);
                lemma_floor_share_bounds(wdg, prefix_values(bseq, j as int), total as int);
            }
        } else if total > 0 {
            proof {
                assert(b as int <= total as int);
                lemma_mul_inequality(b as int, total as int, wdg);
                lemma_mul_is_commutative(b as int, wdg);
                lemma_mul_is_commutative(total as int, wdg);
                lemma_included_le_sum(sessions@, m, ov);
                lemma_mul_inequality(total as int, sum_durations(sessions@), wdg);
                lemma_mul_is_commutative(sum_durations(sessions@), wdg);
                lemma_mul_nonnegative(wdg, b as int);
                lemma_floor_share_bounds(wdg, b as int, total as int);
            }
            dur = (wd * b) / total;
            proof {
                assert(dur as int == floor_share(wdg, b as int, total as int));
            }
        } else {
            dur = 0;
        }
        proof {
            // The cumulative shares through this block stay within the window.
            if j + 1 < nb {
                lemma_floor_share_bounds(wdg, prefix_values(bseq, j + 1), total as int);
                assert(allocated as int + dur as int == shares_before(bseq, wdg, total as int, j + 1));
                assert(shares_before(bseq, wdg, total as int, j + 1) <= wdg);
            }
        }
        allocations.push(Allocation { project_id: buckets[j].0.clone(), start: cursor, end: cursor + dur });
        cursor = cursor + dur;
        allocated = allocated + dur;
        j = j + 1;
    }
    proof {
        lemma_shares_eq_all(bseq, sessions@, m, ov, wdg);
        assert(total as int == included_secs(sessions@, m, ov));
    }
    AllocResult { allocations, skipped }
}

/// A destination's seconds never exceed the included total.
proof fn lemma_bucket_in_included(
    sessions: Seq<Session>,
    m: ProjectMapping,
    other: Option<Seq<char>>,
    id: Seq<char>,
)
    requires
        forall|k: int| 0 <= k < sessions.len() ==> sessions[k].duration >= 0,
    ensures
        0 <= bucket_secs(sessions, m, other, id) <= included_secs(sessions, m, other),
    decreases sessions.len(),
{
    if sessions.len() > 0 {
        lemma_bucket_in_included(sessions.drop_last(), m, other, id);
    }
}

/// The cumulative shares agree with the session model at every prefix.
proof fn lemma_shares_eq_all(
    bs: Seq<(String, i64)>,
    sessions: Seq<Session>,
    m: ProjectMapping,
    other: Option<Seq<char>>,
    wd: int,
)
    requires
        bucket_ids(bs) == dest_ids(sessions, m, other),
        forall|k: int|
            0 <= k < bs.len() ==> #[trigger] bs[k].1 as int == bucket_secs(
                sessions,
                m,
                other,
                bucket_ids(bs)[k],
            ),
    ensures
        forall|j: int|
            0 <= j <= bs.len() ==> #[trigger] shares_before(
                bs,
                wd,
                included_secs(sessions, m, other),
                j,
            ) == share_sum(sessions, m, other, wd, j),
{
    assert forall|j: int|
        0 <= j <= bs.len() implies #[trigger] shares_before(
        bs,
        wd,
        included_secs(sessions, m, other),
        j,
    ) == share_sum(sessions, m, other, wd, j) by {
        lemma_shares_eq(bs, sessions, m, other, wd, j);
    }
}

// --- configuration, errors, and the workday window ---

/// Settings the sync pass runs under.
pub struct SyncConfig {
    /// Local wall-clock start of the workday, in `HH:MM` form.
    pub work_day_start: String,
    /// Local wall-clock end of the workday, in `HH:MM` form.
    pub work_day_end: String,
    pub project_mapping: ProjectMapping,
    /// Fallback destination for unmapped projects, if configured.
    pub other_project_id: Option<String>,
    pub workspace_id: String,
}

impl SyncConfig {
    pub open spec fn wf(self) -> bool {
        self.project_mapping.wf()
    }
}

#[derive(Debug)]
pub enum SyncError {
    /// The configured workday start is not a valid `HH:MM` time.
    InvalidWorkDayStart,
    /// The configured workday end is not a valid `HH:MM` time.
    InvalidWorkDayEnd,
    /// The local workday start is absent or ambiguous on this date.
    AmbiguousWorkDayStart,
    /// The local workday end is absent or ambiguous on this date.
    AmbiguousWorkDayEnd,
    /// The workday window does not end after it starts.
    EmptyWindow,
    /// The workday window or the tracked totals are too large to allocate.
    OversizedWindow,
    /// The external posting call failed; the run is aborted.
    PostFailed(String),
}

/// A UTC window whose boundaries each lie within one day of the configured
/// civil `HH:MM` times on a date: everything the machine's time zone leaves
/// determined about a resolved workday window.
pub open spec fn window_in_bounds(
    start_text: Seq<char>,
    end_text: Seq<char>,
    date: int,
    ws: int,
    we: int,
) -> bool {
    &&& clock::hhmm_of(start_text) matches Some(hs) && date * 86400 + hs.0 * 3600 + hs.1 * 60
        - 86400 < ws < date * 86400 + hs.0 * 3600 + hs.1 * 60 + 86400
    &&& clock::hhmm_of(end_text) matches Some(he) && date * 86400 + he.0 * 3600 + he.1 * 60
        - 86400 < we < date * 86400 + he.0 * 3600 + he.1 * 60 + 86400
}

/// The UTC workday window `[start, end)` for a calendar date, from the
/// configured local `HH:MM` boundaries.
pub fn work_day_boundaries(start: &str, end: &str, date: i64) -> (r: Result<(i64, i64), SyncError>)
    ensures
        match r {
            Ok(b) => window_in_bounds(start@, end@, date as int, b.0 as int, b.1 as int),
            Err(e) => match e {
                SyncError::InvalidWorkDayStart => clock::hhmm_of(start@) is None,
                SyncError::InvalidWorkDayEnd => clock::hhmm_of(start@) is Some && clock::hhmm_of(
                    end@,
                ) is None,
                SyncError::AmbiguousWorkDayStart | SyncError::AmbiguousWorkDayEnd => clock::hhmm_of(
                    start@,
                ) is Some && clock::hhmm_of(end@) is Some,
                _ => false,
            },
        },
{
    let (sh, sm) = match clock::parse_hhmm(start) {
        Some(t) => t,
        None => {
            return Err(SyncError::InvalidWorkDayStart);
        },
    };
    let (eh, em) = match clock::parse_hhmm(end) {
        Some(t) => t,
        None => {
            return Err(SyncError::InvalidWorkDayEnd);
        },
    };
    let s = match clock::local_civil_to_utc(date, sh, sm) {
        Some(t) => t,
        None => {
            return Err(SyncError::AmbiguousWorkDayStart);
        },
    };
    let e = match clock::local_civil_to_utc(date, eh, em) {
        Some(t) => t,
        None => {
            return Err(SyncError::AmbiguousWorkDayEnd);
        },
    };
    Ok((s, e))
}

/// Whether a calendar day is Monday through Friday.
pub open spec fn spec_is_weekday(day: int) -> bool {
    clock::weekday_index(day) != 0 && clock::weekday_index(day) != 6
}

/// Whether a calendar day is Monday through Friday (day 0, 1970-01-01, was a
/// Thursday; index 0 is Sunday and 6 Saturday).
pub fn is_weekday(date: i64) -> (r: bool)
    ensures
        r == spec_is_weekday(date as int),
{
    let w = clock::weekday_of_day(date);
    w != 0 && w != 6
}

/// The machine limits the engine needs: the window length, the summed
/// seconds, and their product must all be representable.
pub open spec fn allocation_inputs_fit(sessions: Seq<Session>, ws: int, we: int) -> bool {
    &&& we - ws <= i64::MAX
    &&& sum_durations(sessions) <= i64::MAX
    &&& (we - ws) * sum_durations(sessions) <= i64::MAX
}

/// Run the allocation engine on a resolved UTC window. An empty window and
/// inputs whose proportional shares cannot be represented are refused, and
/// nothing else is: success, and each error, is an exact function of the
/// inputs.
pub fn allocate_in_window(
    sessions: &Vec<Session>,
    config: &SyncConfig,
    work_day_start: i64,
    work_day_end: i64,
) -> (r: Result<AllocResult, SyncError>)
    requires
        config.wf(),
        forall|k: int| 0 <= k < sessions@.len() ==> sessions@[k].duration >= 0,
    ensures
        match r {
            Ok(res) => work_day_start < work_day_end && allocation_inputs_fit(
                sessions@,
                work_day_start as int,
                work_day_end as int,
            ) && allocations_match(
                res.allocations@,
                sessions@,
                config.project_mapping,
                other_view(config.other_project_id),
                work_day_start as int,
                work_day_end as int,
            ) && strings_view(res.skipped@) == skipped_projects(
                sessions@,
                config.project_mapping,
                other_view(config.other_project_id),
            ),
            Err(e) => match e {
                SyncError::EmptyWindow => work_day_end <= work_day_start,
                SyncError::OversizedWindow => work_day_start < work_day_end
                    && !allocation_inputs_fit(
                    sessions@,
                    work_day_start as int,
                    work_day_end as int,
                ),
                _ => false,
            },
        },
{
    if work_day_end <= work_day_start {
        return Err(SyncError::EmptyWindow);
    }
    let wd = match work_day_end.checked_sub(work_day_start) {
        Some(d) => d,
        None => {
            return Err(SyncError::OversizedWindow);
        },
    };

    // The proportional shares multiply the window by tracked seconds; refuse
    // inputs whose product cannot be represented.
    let mut sum: i64 = 0;
    let n = sessions.len();
    let mut i: usize = 0;
    proof {
        assert(sessions@.take(0) =~= Seq::<Session>::empty());
    }
    while i < n
        invariant
            0 <= i <= n,
            n == sessions@.len(),
            work_day_start < work_day_end,
            forall|k: int| 0 <= k < sessions@.len() ==> sessions@[k].duration >= 0,
            sum as int == sum_durations(sessions@.take(i as int)),
            sum >= 0,
        decreases n - i,
    {
        proof {
            assert(sessions@.take(i + 1).drop_last() =~= sessions@.take(i as int));
            assert(sessions@.take(i + 1).last() == sessions@[i as int]);
        }
        sum = match sum.checked_add(sessions[i].duration) {
            Some(v) => v,
            None => {
                proof {
                    assert(sum_durations(sessions@.take(i + 1)) == sum as int
                        + sessions@[i as int].duration);
                    lemma_sum_durations_prefix(sessions@, i + 1);
                    assert(sum_durations(sessions@) > i64::MAX);
                }
                return Err(SyncError::OversizedWindow);
            },
        };
        i = i + 1;
    }
    proof {
        assert(sessions@.take(n as int) =~= sessions@);
    }
    if wd.checked_mul(sum).is_none() {
        proof {
            lemma_mul_nonnegative(wd as int, sum as int);
        }
        return Err(SyncError::OversizedWindow);
    }

    Ok(
        compute_allocations(
            sessions,
            &config.project_mapping,
            &config.other_project_id,
            work_day_start,
            work_day_end,
        ),
    )
}

/// Sessions for one day, the routing configuration, and the date, turned into
/// the day's allocations: resolves the workday window and runs the engine.
/// An empty session list yields an empty result without touching the window.
pub fn allocate(sessions: &Vec<Session>, config: &SyncConfig, date: i64) -> (r: Result<
    AllocResult,
    SyncError,
>)
    requires
        config.wf(),
        forall|k: int| 0 <= k < sessions@.len() ==> sessions@[k].duration >= 0,
    ensures
        r is Err ==> sessions@.len() > 0,
        r matches Ok(res) ==> (sessions@.len() == 0 ==> res.allocations@.len() == 0
            && res.skipped@.len() == 0),
        r matches Ok(res) ==> (sessions@.len() > 0 ==> (exists|a: int, b: int|
            a < b && allocation_inputs_fit(sessions@, a, b) && window_in_bounds(
                config.work_day_start@,
                config.work_day_end@,
                date as int,
                a,
                b,
            ) && #[trigger] allocations_match(
                res.allocations@,
                sessions@,
                config.project_mapping,
                other_view(config.other_project_id),
                a,
                b,
            )) && strings_view(res.skipped@) == skipped_projects(
            sessions@,
            config.project_mapping,
            other_view(config.other_project_id),
        )),
        r matches Err(e) ==> match e {
            SyncError::InvalidWorkDayStart => clock::hhmm_of(config.work_day_start@) is None,
            SyncError::InvalidWorkDayEnd => clock::hhmm_of(config.work_day_start@) is Some
                && clock::hhmm_of(config.work_day_end@) is None,
            SyncError::AmbiguousWorkDayStart | SyncError::AmbiguousWorkDayEnd => clock::hhmm_of(
                config.work_day_start@,
            ) is Some && clock::hhmm_of(config.work_day_end@) is Some,
            SyncError::EmptyWindow => exists|a: int, b: int|
                #[trigger] window_in_bounds(
                    config.work_day_start@,
                    config.work_day_end@,
                    date as int,
                    a,
                    b,
                ) && b <= a,
            SyncError::OversizedWindow => exists|a: int, b: int|
                #[trigger] window_in_bounds(
                    config.work_day_start@,
                    config.work_day_end@,
                    date as int,
                    a,
                    b,
                ) && a < b && !allocation_inputs_fit(sessions@, a, b),
            SyncError::PostFailed(_) => false,
        },
{
    if sessions.len() == 0 {
        return Ok(AllocResult { allocations: Vec::new(), skipped: Vec::new() });
    }
    let bounds = work_day_boundaries(
        config.work_day_start.as_str(),
        config.work_day_end.as_str(),
        date,
    );
    let (ws, we) = match bounds {
        Ok(b) => b,
        Err(e) => {
            return Err(e);
        },
    };
    match allocate_in_window(sessions, config, ws, we) {
        Ok(res) => {
            proof {
                assert(allocations_match(
                    res.allocations@,
                    sessions@,
                    config.project_mapping,
                    other_view(config.other_project_id),
                    ws as int,
                    we as int,
                ));
            }
            Ok(res)
        },
        Err(e) => {
            proof {
                assert(window_in_bounds(
                    config.work_day_start@,
                    config.work_day_end@,
                    date as int,
                    ws as int,
                    we as int,
                ));
            }
            Err(e)
        },
    }
}

// --- the sync driver ---

/// What the driver asks of its caller next.
pub enum SyncStep {
    /// Post this block to the external service, then report the outcome
    /// through `report_posted`.
    Post { date: i64, project_id: String, start: i64, end: i64 },
    /// This date's blocks were all attempted without error and the day was
    /// marked synced.
    DayDone { date: i64, entries: u64 },
    /// The walk over unsynced days is complete, or was aborted.
    Finished { days: u64, entries: u64 },
}

/// What one day's pending blocks were derived from: the resolved workday
/// window and the sessions the store held in it at derivation time.
pub ghost struct DayBasis {
    pub window_start: int,
    pub window_end: int,
    pub sessions: Seq<Session>,
}

/// A weekday the sync walk may pass without marking: it is already marked
/// day-synced, or, for some window within the configured civil bounds, the
/// store holds no session in the window or none of them resolves to a
/// destination.
pub open spec fn day_skippable(
    st: Store,
    start_text: Seq<char>,
    end_text: Seq<char>,
    m: ProjectMapping,
    other: Option<Seq<char>>,
    ws_id: Seq<char>,
    d: int,
) -> bool {
    ||| st.day_synced(d, ws_id)
    ||| exists|a: int, b: int|
        #[trigger] window_in_bounds(start_text, end_text, d, a, b) && (st.sessions_in_window(
            a,
            b,
        ).len() == 0 || dest_ids(st.sessions_in_window(a, b), m, other).len() == 0)
}

/// Walks unsynced weekdays chronologically from the earliest session date
/// through yesterday, re-deriving each day's allocations from the stored
/// sessions, and commits completion marks incrementally: an entry mark after
/// each successful post, a day mark once every block of the date was
/// attempted without error. A failed post aborts the walk; marks already
/// committed stay, so a re-run resumes where it stopped.
pub struct SyncRunner {
    config: SyncConfig,
    yesterday: i64,
    current_date: i64,
    pending: Vec<Allocation>,
    basis: Ghost<DayBasis>,
    next_index: usize,
    day_entries: u64,
    total_days: u64,
    total_entries: u64,
    in_day: bool,
    done: bool,
}

impl SyncRunner {
    pub closed spec fn workspace(self) -> Seq<char> {
        self.config.workspace_id@
    }

    pub closed spec fn work_day_start_text(self) -> Seq<char> {
        self.config.work_day_start@
    }

    pub closed spec fn work_day_end_text(self) -> Seq<char> {
        self.config.work_day_end@
    }

    /// The project-to-destination routing the runner allocates under.
    pub closed spec fn routing(self) -> ProjectMapping {
        self.config.project_mapping
    }

    /// The fallback destination for unmapped projects.
    pub closed spec fn fallback(self) -> Option<Seq<char>> {
        other_view(self.config.other_project_id)
    }

    /// The date the walk stands at.
    pub closed spec fn date(self) -> int {
        self.current_date as int
    }

    /// The last calendar day the walk covers (yesterday at construction).
    pub closed spec fn end_date(self) -> int {
        self.yesterday as int
    }

    /// The walk was aborted by a failed post or boundary error, or finished.
    pub closed spec fn halted(self) -> bool {
        self.done
    }

    /// The walk stands inside a day whose blocks are being posted.
    pub closed spec fn mid_day(self) -> bool {
        self.in_day
    }

    /// The current day's blocks, as the allocation engine produced them.
    pub closed spec fn pending_blocks(self) -> Seq<Allocation> {
        self.pending@
    }

    /// The position of the block awaiting a post outcome.
    pub closed spec fn next_pos(self) -> int {
        self.next_index as int
    }

    /// The resolved workday window the current day's blocks were derived for.
    pub closed spec fn day_window_start(self) -> int {
        self.basis@.window_start
    }

    pub closed spec fn day_window_end(self) -> int {
        self.basis@.window_end
    }

    /// The sessions the current day's blocks were derived from.
    pub closed spec fn day_sessions(self) -> Seq<Session> {
        self.basis@.sessions
    }

    /// The driver is mid-day, with a block awaiting a post outcome.
    pub open spec fn awaiting(self) -> bool {
        self.mid_day() && self.next_pos() < self.pending_blocks().len()
    }

    pub open spec fn next_project(self) -> Seq<char> {
        self.pending_blocks()[self.next_pos()].project_id@
    }

    /// Nothing a step does changes the runner's configuration or walk bounds.
    pub open spec fn same_setup(self, other: SyncRunner) -> bool {
        &&& self.workspace() == other.workspace()
        &&& self.work_day_start_text() == other.work_day_start_text()
        &&& self.work_day_end_text() == other.work_day_end_text()
        &&& self.routing() == other.routing()
        &&& self.fallback() == other.fallback()
        &&& self.end_date() == other.end_date()
    }

    /// The current day's derived blocks, window and sessions.
    pub open spec fn same_day_state(self, other: SyncRunner) -> bool {
        &&& self.pending_blocks() == other.pending_blocks()
        &&& self.day_window_start() == other.day_window_start()
        &&& self.day_window_end() == other.day_window_end()
        &&& self.day_sessions() == other.day_sessions()
    }

    /// Mid-day, the pending blocks are exactly the allocation engine's output
    /// over the day's sessions, for a window within the configured civil
    /// bounds on the day's date.
    pub open spec fn day_blocks_ok(self) -> bool {
        &&& self.day_window_start() < self.day_window_end()
        &&& window_in_bounds(
            self.work_day_start_text(),
            self.work_day_end_text(),
            self.date(),
            self.day_window_start(),
            self.day_window_end(),
        )
        &&& self.day_sessions().len() > 0
        &&& self.pending_blocks().len() > 0
        &&& allocations_match(
            self.pending_blocks(),
            self.day_sessions(),
            self.routing(),
            self.fallback(),
            self.day_window_start(),
            self.day_window_end(),
        )
    }

    pub open spec fn wf(self) -> bool {
        &&& self.config_wf()
        &&& self.bounds_wf()
        &&& (self.mid_day() ==> self.day_blocks_ok())
    }

    pub closed spec fn config_wf(self) -> bool {
        self.config.wf()
    }

    pub closed spec fn bounds_wf(self) -> bool {
        &&& self.next_index <= self.pending@.len()
        &&& self.yesterday < i64::MAX
        &&& (self.in_day ==> self.current_date <= self.yesterday && spec_is_weekday(
            self.current_date as int,
        ))
    }

    /// A driver poised at the first candidate date.
    pub fn new(config: SyncConfig, start_date: i64, yesterday: i64) -> (r: SyncRunner)
        requires
            config.wf(),
            yesterday < i64::MAX,
        ensures
            r.wf(),
            !r.awaiting(),
            !r.halted(),
            !r.mid_day(),
            r.workspace() == config.workspace_id@,
            r.work_day_start_text() == config.work_day_start@,
            r.work_day_end_text() == config.work_day_end@,
            r.routing() == config.project_mapping,
            r.fallback() == other_view(config.other_project_id),
            r.date() == start_date,
            r.end_date() == yesterday,
    {
        SyncRunner {
            config,
            yesterday,
            current_date: start_date,
            pending: Vec::new(),
            basis: Ghost(DayBasis { window_start: 0, window_end: 0, sessions: Seq::empty() }),
            next_index: 0,
            day_entries: 0,
            total_days: 0,
            total_entries: 0,
            in_day: false,
            done: false,
        }
    }

    /// Emit the next step of the current day: scan the day's blocks in order,
    /// skip those already entry-marked, and hand out the first that is not;
    /// once every block is marked, mark the day synced and close it.
    #[verifier::loop_isolation(false)]
    fn emit_from_day(&mut self, store: &mut Store) -> (r: SyncStep)
        requires
            old(self).wf(),
            old(store).wf(),
            old(self).mid_day(),
        ensures
            final(self).wf(),
            final(store).wf(),
            final(store).rows_seq() == old(store).rows_seq(),
            final(store).entry_marks() == old(store).entry_marks(),
            final(self).same_setup(*old(self)),
            final(self).same_day_state(*old(self)),
            final(self).halted() == old(self).halted(),
            final(self).date() >= old(self).date(),
            match r {
                SyncStep::Post { date, project_id, start, end } => {
                    &&& *final(store) == *old(store)
                    &&& final(self).awaiting()
                    &&& final(self).day_blocks_ok()
                    &&& date == final(self).date() && date == old(self).date()
                    &&& ({
                        let blocks = final(self).pending_blocks();
                        let k = final(self).next_pos();
                        &&& 0 <= k < blocks.len()
                        &&& project_id@ == blocks[k].project_id@
                        &&& start == blocks[k].start
                        &&& end == blocks[k].end
                        &&& !final(store).entry_synced(
                            date as int,
                            final(self).workspace(),
                            blocks[k].project_id@,
                        )
                        &&& forall|j: int|
                            0 <= j < k ==> final(store).entry_synced(
                                date as int,
                                final(self).workspace(),
                                (#[trigger] blocks[j]).project_id@,
                            )
                    })
                },
                SyncStep::DayDone { date, .. } => {
                    &&& !final(self).mid_day()
                    &&& date == old(self).date() && date == final(self).date() - 1
                    &&& final(store).day_synced(date as int, old(self).workspace())
                    &&& (final(store).day_marks() == old(store).day_marks() || exists|
                        m: crate::store::DayMark,
                    |
                        #[trigger] crate::store::mark_day_effect(
                            *old(store),
                            *final(store),
                            date as int,
                            old(self).workspace(),
                            m,
                        ))
                    &&& forall|j: int|
                        0 <= j < final(self).pending_blocks().len() ==> final(store).entry_synced(
                            date as int,
                            final(self).workspace(),
                            (#[trigger] final(self).pending_blocks()[j]).project_id@,
                        )
                },
                SyncStep::Finished { .. } => false,
            },
    {
        let date = self.current_date;
        let n = self.pending.len();
        let mut idx: usize = 0;
        while idx < n
            invariant
                *self == *old(self),
                *store == *old(store),
                0 <= idx <= n,
                n == self.pending@.len(),
                forall|j: int|
                    0 <= j < idx ==> store.entry_synced(
                        date as int,
                        self.workspace(),
                        (#[trigger] self.pending@[j]).project_id@,
                    ),
            decreases n - idx,
        {
            let synced = store.is_entry_synced(
                date,
                self.config.workspace_id.as_str(),
                self.pending[idx].project_id.as_str(),
            );
            if !synced {
                self.next_index = idx;
                let a = &self.pending[idx];
                return SyncStep::Post {
                    date,
                    project_id: a.project_id.clone(),
                    start: a.start,
                    end: a.end,
                };
            }
            idx = idx + 1;
        }
        // Every block of this date is marked; commit the day mark.
        let ghost pre = *store;
        if !store.is_day_synced(date, self.config.workspace_id.as_str()) {
            match store.mark_day_synced(date, self.config.workspace_id.as_str()) {
                Ok(_) => {
                    proof {
                        let m = choose|m: crate::store::DayMark|
                            crate::store::mark_day_effect(
                                pre,
                                *store,
                                date as int,
                                self.config.workspace_id@,
                                m,
                            );
                        crate::store::lemma_mark_day_independent(
                            pre,
                            *store,
                            date as int,
                            self.config.workspace_id@,
                            m,
                        );
                    }
                },
                Err(_) => {
                    proof {
                        // A duplicate mark is impossible: the guard above
                        // checked the key is not yet synced.
                        assert(false);
                    }
                },
            }
        }
        let entries = self.day_entries;
        self.in_day = false;
        self.day_entries = 0;
        self.next_index = 0;
        if self.total_days < u64::MAX {
            self.total_days = self.total_days + 1;
        }
        if entries <= u64::MAX - self.total_entries {
            self.total_entries = self.total_entries + entries;
        }
        self.current_date = self.current_date + 1;
        SyncStep::DayDone { date, entries }
    }

    /// Advance the walk to the next step: the next block to post, a finished
    /// day, or the end of the walk. Weekends, days already marked synced,
    /// days without stored sessions in the workday window, and days whose
    /// destination set is empty are passed without being marked; every other
    /// day's blocks are re-derived by the allocation engine from the stored
    /// sessions before any post is asked for.
    #[verifier::loop_isolation(false)]
    pub fn advance(&mut self, store: &mut Store) -> (r: Result<SyncStep, SyncError>)
        requires
            old(self).wf(),
            old(store).wf(),
        ensures
            final(self).wf(),
            final(store).wf(),
            final(store).rows_seq() == old(store).rows_seq(),
            final(store).entry_marks() == old(store).entry_marks(),
            final(self).same_setup(*old(self)),
            final(self).date() >= old(self).date(),
            !(r matches Ok(SyncStep::DayDone { .. })) ==> final(store).day_marks() == old(
                store,
            ).day_marks(),
            old(self).halted() ==> *final(self) == *old(self) && *final(store) == *old(store)
                && r matches Ok(SyncStep::Finished { .. }),
            old(self).mid_day() && !old(self).halted() ==> final(self).same_day_state(*old(self))
                && final(self).halted() == old(self).halted(),
            !old(self).mid_day() && !(r matches Ok(SyncStep::Finished { .. })) && r is Ok
                ==> final(self).day_sessions() == old(store).sessions_in_window(
                final(self).day_window_start(),
                final(self).day_window_end(),
            ),
            r matches Ok(SyncStep::Post { .. }) && !old(self).mid_day()
                ==> !final(store).day_synced(final(self).date(), final(self).workspace()),
            match r {
                Ok(step) => match step {
                    SyncStep::Post { date, project_id, start, end } => {
                        &&& *final(store) == *old(store)
                        &&& final(self).awaiting()
                        &&& final(self).day_blocks_ok()
                        &&& !final(self).halted()
                        &&& date == final(self).date()
                        &&& spec_is_weekday(date as int)
                        &&& date <= final(self).end_date()
                        &&& ({
                            let blocks = final(self).pending_blocks();
                            let k = final(self).next_pos();
                            &&& 0 <= k < blocks.len()
                            &&& project_id@ == blocks[k].project_id@
                            &&& start == blocks[k].start
                            &&& end == blocks[k].end
                            &&& !final(store).entry_synced(
                                date as int,
                                final(self).workspace(),
                                blocks[k].project_id@,
                            )
                            &&& forall|j: int|
                                0 <= j < k ==> final(store).entry_synced(
                                    date as int,
                                    final(self).workspace(),
                                    (#[trigger] blocks[j]).project_id@,
                                )
                        })
                    },
                    SyncStep::DayDone { date, .. } => {
                        &&& !final(self).mid_day()
                        &&& date >= old(self).date()
                        &&& date == final(self).date() - 1
                        &&& spec_is_weekday(date as int)
                        &&& final(store).day_synced(date as int, old(self).workspace())
                        &&& ({
                            let blocks = final(self).pending_blocks();
                            &&& blocks.len() > 0
                            &&& allocations_match(
                                blocks,
                                final(self).day_sessions(),
                                final(self).routing(),
                                final(self).fallback(),
                                final(self).day_window_start(),
                                final(self).day_window_end(),
                            )
                            &&& window_in_bounds(
                                final(self).work_day_start_text(),
                                final(self).work_day_end_text(),
                                date as int,
                                final(self).day_window_start(),
                                final(self).day_window_end(),
                            )
                            &&& forall|j: int|
                                0 <= j < blocks.len() ==> final(store).entry_synced(
                                    date as int,
                                    final(self).workspace(),
                                    (#[trigger] blocks[j]).project_id@,
                                )
                        })
                    },
                    SyncStep::Finished { .. } => final(self).halted() && (old(self).halted() || {
                        &&& final(self).date() > final(self).end_date()
                        &&& forall|d: int|
                            old(self).date() <= d <= final(self).end_date() && spec_is_weekday(d)
                                ==> #[trigger] day_skippable(
                                *old(store),
                                old(self).work_day_start_text(),
                                old(self).work_day_end_text(),
                                old(self).routing(),
                                old(self).fallback(),
                                old(self).workspace(),
                                d,
                            )
                    }),
                },
                Err(e) => final(self).halted() && !old(self).mid_day() && spec_is_weekday(
                    final(self).date(),
                ) && final(self).date() <= final(self).end_date() && !old(store).day_synced(
                    final(self).date(),
                    old(self).workspace(),
                ) && (forall|d: int|
                    old(self).date() <= d < final(self).date() && spec_is_weekday(d)
                        ==> #[trigger] day_skippable(
                        *old(store),
                        old(self).work_day_start_text(),
                        old(self).work_day_end_text(),
                        old(self).routing(),
                        old(self).fallback(),
                        old(self).workspace(),
                        d,
                    )) && match e {
                    SyncError::InvalidWorkDayStart => clock::hhmm_of(
                        final(self).work_day_start_text(),
                    ) is None,
                    SyncError::InvalidWorkDayEnd => clock::hhmm_of(
                        final(self).work_day_start_text(),
                    ) is Some && clock::hhmm_of(final(self).work_day_end_text()) is None,
                    SyncError::AmbiguousWorkDayStart | SyncError::AmbiguousWorkDayEnd
                        => clock::hhmm_of(final(self).work_day_start_text()) is Some
                        && clock::hhmm_of(final(self).work_day_end_text()) is Some,
                    SyncError::EmptyWindow => exists|a: int, b: int|
                        #[trigger] window_in_bounds(
                            final(self).work_day_start_text(),
                            final(self).work_day_end_text(),
                            final(self).date(),
                            a,
                            b,
                        ) && b <= a,
                    SyncError::OversizedWindow => exists|a: int, b: int|
                        #[trigger] window_in_bounds(
                            final(self).work_day_start_text(),
                            final(self).work_day_end_text(),
                            final(self).date(),
                            a,
                            b,
                        ) && a < b && !allocation_inputs_fit(
                            old(store).sessions_in_window(a, b),
                            a,
                            b,
                        ),
                    SyncError::PostFailed(_) => false,
                },
            },
    {
        if self.done {
            // An aborted or completed walk stays finished.
            return Ok(SyncStep::Finished { days: self.total_days, entries: self.total_entries });
        }
        if self.in_day {
            return Ok(self.emit_from_day(store));
        }
        while self.current_date <= self.yesterday
            invariant
                *store == *old(store),
                self.wf(),
                !self.in_day,
                !self.done,
                self.config == old(self).config,
                self.yesterday == old(self).yesterday,
                self.current_date >= old(self).current_date,
                forall|d: int|
                    old(self).date() <= d < self.date() && spec_is_weekday(d)
                        ==> #[trigger] day_skippable(
                        *old(store),
                        old(self).work_day_start_text(),
                        old(self).work_day_end_text(),
                        old(self).routing(),
                        old(self).fallback(),
                        old(self).workspace(),
                        d,
                    ),
            decreases self.yesterday + 1 - self.current_date,
        {
            let date = self.current_date;
            if !is_weekday(date) {
                self.current_date = self.current_date + 1;
                continue ;
            }
            if store.is_day_synced(date, self.config.workspace_id.as_str()) {
                self.current_date = self.current_date + 1;
                continue ;
            }
            let bounds = work_day_boundaries(
                self.config.work_day_start.as_str(),
                self.config.work_day_end.as_str(),
                date,
            );
            let (ws, we) = match bounds {
                Ok(b) => b,
                Err(e) => {
                    self.done = true;
                    return Err(e);
                },
            };
            let sessions = store.query_range(ws, we);
            if sessions.len() == 0 {
                // Data for this day may still arrive; leave it unmarked.
                proof {
                    assert(store.sessions_in_window(ws as int, we as int).len() == 0);
                }
                self.current_date = self.current_date + 1;
                continue ;
            }
            let result = match allocate_in_window(&sessions, &self.config, ws, we) {
                Ok(res) => res,
                Err(e) => {
                    self.done = true;
                    return Err(e);
                },
            };
            if result.allocations.len() == 0 {
                // Every project was skipped; leave the day open.
                proof {
                    assert(dest_ids(
                        store.sessions_in_window(ws as int, we as int),
                        self.config.project_mapping,
                        other_view(self.config.other_project_id),
                    ).len() == 0);
                }
                self.current_date = self.current_date + 1;
                continue ;
            }
            self.pending = result.allocations;
            self.basis = Ghost(
                DayBasis {
                    window_start: ws as int,
                    window_end: we as int,
                    sessions: sessions@,
                },
            );
            self.next_index = 0;
            self.day_entries = 0;
            self.in_day = true;
            return Ok(self.emit_from_day(store));
        }
        self.done = true;
        Ok(SyncStep::Finished { days: self.total_days, entries: self.total_entries })
    }

    /// Record the outcome of the post the caller just attempted. On success
    /// the entry is marked synced under exactly the identifier the external
    /// service returned, and the walk moves to the next block; on failure the
    /// walk is aborted and the store left untouched, so a re-run resumes from
    /// the same block.
    pub fn report_posted(&mut self, store: &mut Store, outcome: Result<String, String>) -> (r:
        Result<(), SyncError>)
        requires
            old(self).wf(),
            old(store).wf(),
            old(self).awaiting(),
        ensures
            final(self).wf(),
            final(store).wf(),
            final(store).rows_seq() == old(store).rows_seq(),
            final(store).day_marks() == old(store).day_marks(),
            final(self).same_setup(*old(self)),
            final(self).same_day_state(*old(self)),
            final(self).date() == old(self).date(),
            final(self).mid_day() == old(self).mid_day(),
            forall|d: int, w: Seq<char>, p: Seq<char>|
                old(store).entry_synced(d, w, p) ==> final(store).entry_synced(d, w, p),
            match r {
                Ok(_) => {
                    &&& outcome is Ok
                    &&& final(self).halted() == old(self).halted()
                    &&& final(self).next_pos() == old(self).next_pos() + 1
                    &&& final(store).entry_synced(
                        old(self).date(),
                        old(self).workspace(),
                        old(self).next_project(),
                    )
                    &&& (outcome matches Ok(eid) ==> ((old(store).entry_synced(
                        old(self).date(),
                        old(self).workspace(),
                        old(self).next_project(),
                    ) && *final(store) == *old(store)) || exists|m: crate::store::EntryMark|
                        #[trigger] crate::store::mark_entry_effect(
                            *old(store),
                            *final(store),
                            old(self).date(),
                            old(self).workspace(),
                            old(self).next_project(),
                            eid@,
                            m,
                        )))
                },
                Err(e) => outcome is Err && final(self).halted() && *final(store) == *old(store)
                    && final(self).next_pos() == old(self).next_pos() && (e matches
                SyncError::PostFailed(m) && (outcome matches Err(msg) ==> m@ == msg@)),
            },
    {
        let pending_len = self.pending.len();
        proof {
            assert(self.next_index < pending_len);
        }
        match outcome {
            Ok(entry_id) => {
                let date = self.current_date;
                let ghost pre = *store;
                let synced = store.is_entry_synced(
                    date,
                    self.config.workspace_id.as_str(),
                    self.pending[self.next_index].project_id.as_str(),
                );
                if !synced {
                    let a = &self.pending[self.next_index];
                    match store.mark_entry_synced(
                        date,
                        self.config.workspace_id.as_str(),
                        a.project_id.as_str(),
                        entry_id.as_str(),
                    ) {
                        Ok(_) => {
                            proof {
                                let m = choose|m: crate::store::EntryMark|
                                    crate::store::mark_entry_effect(
                                        pre,
                                        *store,
                                        date as int,
                                        self.config.workspace_id@,
                                        a.project_id@,
                                        entry_id@,
                                        m,
                                    );
                                crate::store::lemma_mark_entry_independent(
                                    pre,
                                    *store,
                                    date as int,
                                    self.config.workspace_id@,
                                    a.project_id@,
                                    entry_id@,
                                    m,
                                );
                            }
                        },
                        Err(_) => {
                            proof {
                                // A duplicate mark is impossible: the guard
                                // above checked the key is not yet synced.
                                assert(false);
                            }
                        },
                    }
                }
                self.next_index = self.next_index + 1;
                if self.day_entries < u64::MAX {
                    self.day_entries = self.day_entries + 1;
                }
                Ok(())
            },
            Err(message) => {
                self.done = true;
                Err(SyncError::PostFailed(message))
            },
        }
    }
}

// --- laws of the allocation engine ---

/// Sum of the blocks' durations.
pub open spec fn sum_alloc_durations(allocs: Seq<Allocation>) -> int
    decreases allocs.len(),
{
    if allocs.len() == 0 {
        0
    } else {
        sum_alloc_durations(allocs.drop_last()) + (allocs.last().end - allocs.last().start)
    }
}

/// Contiguous blocks telescope: their durations sum to the overall span.
proof fn lemma_sum_telescope(allocs: Seq<Allocation>)
    requires
        allocs.len() > 0,
        forall|k: int| 1 <= k < allocs.len() ==> (#[trigger] allocs[k]).start == allocs[k - 1].end,
    ensures
        sum_alloc_durations(allocs) == allocs[allocs.len() - 1].end - allocs[0].start,
    decreases allocs.len(),
{
    let front = allocs.drop_last();
    assert(sum_alloc_durations(allocs) == sum_alloc_durations(front) + (allocs.last().end
        - allocs.last().start));
    if allocs.len() == 1 {
        assert(front.len() == 0);
        assert(sum_alloc_durations(front) == 0);
        assert(allocs.last() == allocs[0]);
    } else {
        assert forall|k: int|
            1 <= k < front.len() implies (#[trigger] front[k]).start == front[k - 1].end by {
            assert(front[k] == allocs[k]);
            assert(front[k - 1] == allocs[k - 1]);
        }
        lemma_sum_telescope(front);
        assert(front[front.len() - 1] == allocs[allocs.len() - 2]);
        assert(front[0] == allocs[0]);
        assert(allocs[allocs.len() - 1].start == allocs[allocs.len() - 2].end);
    }
}

/// Law: for a non-empty destination set, the allocations are contiguous from
/// the workday start to the workday end, strictly ascending by destination
/// id, and their durations sum exactly to the workday duration. The last
/// block, the lexicographically greatest destination, absorbs the rounding
/// remainder left after the other blocks' floor shares.
pub proof fn lemma_allocations_cover(
    allocs: Seq<Allocation>,
    sessions: Seq<Session>,
    m: ProjectMapping,
    other: Option<Seq<char>>,
    ws: int,
    we: int,
)
    requires
        allocations_match(allocs, sessions, m, other, ws, we),
        allocs.len() > 0,
    ensures
        allocs[0].start == ws,
        allocs[allocs.len() - 1].end == we,
        forall|k: int| 1 <= k < allocs.len() ==> (#[trigger] allocs[k]).start == allocs[k - 1].end,
        sum_alloc_durations(allocs) == we - ws,
        forall|i: int, j: int|
            0 <= i < j < allocs.len() ==> lex_lt(allocs[i].project_id@, allocs[j].project_id@),
        allocs[allocs.len() - 1].end - allocs[allocs.len() - 1].start == (we - ws) - share_sum(
            sessions,
            m,
            other,
            we - ws,
            allocs.len() - 1,
        ),
{
    lemma_dest_ids_sorted(sessions, m, other);
    let ids = dest_ids(sessions, m, other);
    assert forall|k: int|
        1 <= k < allocs.len() implies (#[trigger] allocs[k]).start == allocs[k - 1].end by {
        // Both sides are `ws` plus the cumulative shares of the first k blocks.
        assert(allocs[k - 1].end == ws + share_sum(sessions, m, other, we - ws, k));
    }
    lemma_sum_telescope(allocs);
    assert forall|i: int, j: int|
        0 <= i < j < allocs.len() implies lex_lt(allocs[i].project_id@, allocs[j].project_id@) by {
        assert(allocs[i].project_id@ == ids[i]);
        assert(allocs[j].project_id@ == ids[j]);
    }
}

/// Law: the allocation split, remainder placement included, is a pure
/// function of its inputs: any two allocation lists meeting the engine's
/// contract for the same inputs hold the same blocks.
pub proof fn lemma_allocations_deterministic(
    a1: Seq<Allocation>,
    a2: Seq<Allocation>,
    sessions: Seq<Session>,
    m: ProjectMapping,
    other: Option<Seq<char>>,
    ws: int,
    we: int,
)
    requires
        allocations_match(a1, sessions, m, other, ws, we),
        allocations_match(a2, sessions, m, other, ws, we),
    ensures
        a1.map_values(|a: Allocation| (a.project_id@, a.start, a.end)) == a2.map_values(
            |a: Allocation| (a.project_id@, a.start, a.end),
        ),
{
    let f = |a: Allocation| (a.project_id@, a.start, a.end);
    assert(a1.len() == a2.len());
    assert forall|k: int| 0 <= k < a1.len() implies f(a1[k]) == f(a2[k]) by {
        assert(a1[k].project_id@ == dest_ids(sessions, m, other)[k]);
        assert(a2[k].project_id@ == dest_ids(sessions, m, other)[k]);
        if k < a1.len() - 1 {
            assert(a1[k].end == ws + share_sum(sessions, m, other, we - ws, k + 1));
            assert(a2[k].end == ws + share_sum(sessions, m, other, we - ws, k + 1));
        } else {
            assert(a1[k].end == we);
            assert(a2[k].end == we);
        }
    }
    assert(a1.map_values(f) =~= a2.map_values(f));
}

/// Replacing the entry at index `i` with one of the same key leaves the
/// mapping relation intact except at that key.
proof fn lemma_mapping_frame(pre: ProjectMapping, post: ProjectMapping, i: int)
    requires
        pre.wf(),
        0 <= i < pre.entries_seq().len(),
        post.entries_seq().len() == pre.entries_seq().len(),
        forall|j: int| 0 <= j < pre.entries_seq().len() && j != i ==> post.entries_seq()[j]
            == pre.entries_seq()[j],
        post.entries_seq()[i].0@ == pre.entries_seq()[i].0@,
    ensures
        post.wf(),
        post.maps(pre.entries_seq()[i].0@),
        post.value_of(pre.entries_seq()[i].0@) == post.entries_seq()[i].1@,
        forall|k: Seq<char>|
            k != pre.entries_seq()[i].0@ ==> post.maps(k) == pre.maps(k) && (pre.maps(k)
                ==> post.value_of(k) == pre.value_of(k)),
{
    let key = pre.entries_seq()[i].0@;
    assert forall|a: int, b: int|
        0 <= a < b < post.entries_seq().len() implies post.entries_seq()[a].0@
        != post.entries_seq()[b].0@ by {
        assert(pre.entries_seq()[a].0@ != pre.entries_seq()[b].0@);
    }
    assert(post.entries_seq()[i].0@ == key);
    let w = choose|j: int|
        0 <= j < post.entries_seq().len() && #[trigger] post.entries_seq()[j].0@ == key;
    if w != i {
        if w < i {
            assert(post.entries_seq()[w].0@ != post.entries_seq()[i].0@);
        } else {
            assert(post.entries_seq()[i].0@ != post.entries_seq()[w].0@);
        }
    }
    assert forall|k: Seq<char>| k != key implies post.maps(k) == pre.maps(k) && (pre.maps(k)
        ==> post.value_of(k) == pre.value_of(k)) by {
        if pre.maps(k) {
            let a = choose|j: int|
                0 <= j < pre.entries_seq().len() && #[trigger] pre.entries_seq()[j].0@ == k;
            assert(a != i);
            assert(post.entries_seq()[a].0@ == k);
            assert(post.maps(k));
            let b = choose|j: int|
                0 <= j < post.entries_seq().len() && #[trigger] post.entries_seq()[j].0@ == k;
            if b != a {
                if b < a {
                    assert(post.entries_seq()[b].0@ != post.entries_seq()[a].0@);
                } else {
                    assert(post.entries_seq()[a].0@ != post.entries_seq()[b].0@);
                }
            }
        }
        if post.maps(k) {
            let a = choose|j: int|
                0 <= j < post.entries_seq().len() && #[trigger] post.entries_seq()[j].0@ == k;
            assert(a != i);
            assert(pre.entries_seq()[a].0@ == k);
            assert(pre.maps(k));
        }
    }
}

/// Appending an entry with a fresh key leaves every other key's relation
/// intact.
proof fn lemma_mapping_push_frame(pre: ProjectMapping, post: ProjectMapping, k: Seq<char>)
    requires
        pre.wf(),
        post.entries_seq().len() == pre.entries_seq().len() + 1,
        forall|j: int| 0 <= j < pre.entries_seq().len() ==> post.entries_seq()[j]
            == pre.entries_seq()[j],
        k != post.entries_seq()[pre.entries_seq().len() as int].0@,
    ensures
        post.maps(k) == pre.maps(k),
        pre.maps(k) ==> post.value_of(k) == pre.value_of(k),
{
    let n = pre.entries_seq().len() as int;
    if pre.maps(k) {
        let a = choose|j: int|
            0 <= j < pre.entries_seq().len() && #[trigger] pre.entries_seq()[j].0@ == k;
        assert(post.entries_seq()[a].0@ == k);
        assert(post.maps(k));
        let b = choose|j: int|
            0 <= j < post.entries_seq().len() && #[trigger] post.entries_seq()[j].0@ == k;
        assert(b != n);
        assert(pre.entries_seq()[b].0@ == k);
        if a != b {
            if a < b {
                assert(pre.entries_seq()[a].0@ != pre.entries_seq()[b].0@);
            } else {
                assert(pre.entries_seq()[b].0@ != pre.entries_seq()[a].0@);
            }
        }
    }
    if post.maps(k) {
        let a = choose|j: int|
            0 <= j < post.entries_seq().len() && #[trigger] post.entries_seq()[j].0@ == k;
        assert(a != n);
        assert(pre.entries_seq()[a].0@ == k);
        assert(pre.maps(k));
    }
}

} // verus!
