//! Session store: sessions keyed by source identity, date-range queries, and
//! per-day / per-entry sync-completion marks.
//!
//! The store is an in-memory relation with the same keys and semantics as the
//! on-disk tables the surrounding program persists: one row per source path,
//! one day mark per (date, workspace), one entry mark per (date, workspace,
//! project).

use vstd::prelude::*;

use crate::clock;
use crate::parser::Session;
use crate::text::str_eq;

verus! {

pub struct SessionRow {
    pub source_path: String,
    pub session: Session,
    /// Local calendar day of the session's start.
    pub date: i64,
}

pub struct DayMark {
    pub date: i64,
    pub workspace_id: String,
}

pub struct EntryMark {
    pub date: i64,
    pub workspace_id: String,
    pub project_id: String,
    /// Identifier the external service returned for the posted entry.
    pub entry_id: String,
}

#[derive(Debug, PartialEq, Eq, Structural, Clone, Copy)]
pub enum StoreError {
    /// A mark was inserted twice for the same key.
    DuplicateKey,
}

/// In-memory relational store for sessions and sync-completion state.
pub struct Store {
    rows: Vec<SessionRow>,
    synced_days: Vec<DayMark>,
    synced_entries: Vec<EntryMark>,
}

impl Store {
    pub closed spec fn rows_seq(self) -> Seq<SessionRow> {
        self.rows@
    }

    pub closed spec fn day_marks(self) -> Seq<DayMark> {
        self.synced_days@
    }

    pub closed spec fn entry_marks(self) -> Seq<EntryMark> {
        self.synced_entries@
    }

    /// Keys are unique and stored sessions carry non-negative durations.
    pub open spec fn wf(self) -> bool {
        &&& forall|i: int, j: int|
            0 <= i < j < self.rows_seq().len() ==> self.rows_seq()[i].source_path@
                != self.rows_seq()[j].source_path@
        &&& forall|i: int|
            0 <= i < self.rows_seq().len() ==> #[trigger] self.rows_seq()[i].session.duration >= 0
        &&& forall|i: int, j: int|
            0 <= i < j < self.day_marks().len() ==> !(self.day_marks()[i].date
                == self.day_marks()[j].date && self.day_marks()[i].workspace_id@
                == self.day_marks()[j].workspace_id@)
        &&& forall|i: int, j: int|
            0 <= i < j < self.entry_marks().len() ==> !(self.entry_marks()[i].date
                == self.entry_marks()[j].date && self.entry_marks()[i].workspace_id@
                == self.entry_marks()[j].workspace_id@ && self.entry_marks()[i].project_id@
                == self.entry_marks()[j].project_id@)
    }

    pub open spec fn has_source(self, sp: Seq<char>) -> bool {
        exists|i: int|
            0 <= i < self.rows_seq().len() && #[trigger] self.rows_seq()[i].source_path@ == sp
    }

    pub open spec fn row_for(self, sp: Seq<char>) -> SessionRow {
        self.rows_seq()[choose|i: int|
            0 <= i < self.rows_seq().len() && #[trigger] self.rows_seq()[i].source_path@ == sp]
    }

    pub open spec fn session_for(self, sp: Seq<char>) -> Session {
        self.row_for(sp).session
    }

    pub open spec fn session_count(self) -> nat {
        self.rows_seq().len()
    }

    pub open spec fn day_synced(self, date: int, ws: Seq<char>) -> bool {
        exists|i: int|
            0 <= i < self.day_marks().len() && #[trigger] self.day_marks()[i].date == date
                && self.day_marks()[i].workspace_id@ == ws
    }

    pub open spec fn entry_synced(self, date: int, ws: Seq<char>, pid: Seq<char>) -> bool {
        exists|i: int|
            0 <= i < self.entry_marks().len() && #[trigger] self.entry_marks()[i].date == date
                && self.entry_marks()[i].workspace_id@ == ws && self.entry_marks()[i].project_id@
                == pid
    }
}

/// A stored row is the one `row_for` picks: keys are unique.
pub proof fn lemma_row_at(s: Store, sp: Seq<char>, i: int)
    requires
        s.wf(),
        0 <= i < s.rows_seq().len(),
        s.rows_seq()[i].source_path@ == sp,
    ensures
        s.has_source(sp),
        s.row_for(sp) == s.rows_seq()[i],
{
    assert(s.has_source(sp));
    let j = choose|j: int|
        0 <= j < s.rows_seq().len() && #[trigger] s.rows_seq()[j].source_path@ == sp;
    if i != j {
        if i < j {
            assert(s.rows_seq()[i].source_path@ != s.rows_seq()[j].source_path@);
        } else {
            assert(s.rows_seq()[j].source_path@ != s.rows_seq()[i].source_path@);
        }
    }
}

/// How `upsert` changes a store: insert-or-replace of one row keyed by source
/// path, holding the given session and a date within one day of the UTC day
/// of the session's start (the stored date is the start's local date).
pub open spec fn upsert_effect(
    pre: Store,
    post: Store,
    sp: Seq<char>,
    s: Session,
    row: SessionRow,
) -> bool {
    &&& row.source_path@ == sp
    &&& row.session == s
    &&& clock::utc_day_of(s.start as int) - 1 <= row.date <= clock::utc_day_of(s.start as int) + 1
    &&& if pre.has_source(sp) {
        exists|i: int|
            0 <= i < pre.rows_seq().len() && #[trigger] pre.rows_seq()[i].source_path@ == sp
                && post.rows_seq() == pre.rows_seq().update(i, row)
    } else {
        post.rows_seq() == pre.rows_seq().push(row)
    }
    &&& post.day_marks() == pre.day_marks()
    &&& post.entry_marks() == pre.entry_marks()
}

/// How `mark_day_synced` changes a store on success.
pub open spec fn mark_day_effect(
    pre: Store,
    post: Store,
    date: int,
    ws: Seq<char>,
    mark: DayMark,
) -> bool {
    &&& mark.date == date
    &&& mark.workspace_id@ == ws
    &&& post.day_marks() == pre.day_marks().push(mark)
    &&& post.rows_seq() == pre.rows_seq()
    &&& post.entry_marks() == pre.entry_marks()
}

/// How `mark_entry_synced` changes a store on success.
pub open spec fn mark_entry_effect(
    pre: Store,
    post: Store,
    date: int,
    ws: Seq<char>,
    pid: Seq<char>,
    eid: Seq<char>,
    mark: EntryMark,
) -> bool {
    &&& mark.date == date
    &&& mark.workspace_id@ == ws
    &&& mark.project_id@ == pid
    &&& mark.entry_id@ == eid
    &&& post.entry_marks() == pre.entry_marks().push(mark)
    &&& post.rows_seq() == pre.rows_seq()
    &&& post.day_marks() == pre.day_marks()
}

/// A session's interval `[start, end)` intersects the query range `[a, b)`.
pub open spec fn range_matches(s: Session, range_start: int, range_end: int) -> bool {
    s.start < range_end && s.end >= range_start
}

impl Store {
    /// The stored sessions whose intervals intersect `[a, b)`, in storage
    /// order: exactly what a range query returns.
    pub open spec fn sessions_in_window(self, a: int, b: int) -> Seq<Session> {
        self.rows_seq().map_values(|row: SessionRow| row.session).filter(
            |s: Session| range_matches(s, a, b),
        )
    }
}

impl Store {
    /// An empty store.
    pub fn new() -> (s: Store)
        ensures
            s.wf(),
            s.rows_seq().len() == 0,
            s.day_marks().len() == 0,
            s.entry_marks().len() == 0,
    {
        Store { rows: Vec::new(), synced_days: Vec::new(), synced_entries: Vec::new() }
    }

    /// Insert-or-replace the session stored for a source path. Replaying the
    /// same source path updates the one row in place, never duplicates.
    #[verifier::loop_isolation(false)]
    pub fn upsert(&mut self, source_path: &str, session: &Session)
        requires
            old(self).wf(),
            session.duration >= 0,
        ensures
            final(self).wf(),
            exists|row: SessionRow|
                #[trigger] upsert_effect(*old(self), *final(self), source_path@, *session, row),
    {
        let date = match clock::local_day_of(session.start) {
            Some(d) => d,
            None => clock::utc_day(session.start),
        };
        let row = SessionRow { source_path: source_path.to_owned(), session: session.clone(), date };
        let ghost rowg = row;

        let n = self.rows.len();
        let mut i: usize = 0;
        while i < n
            invariant
                *self == *old(self),
                old(self).wf(),
                n == self.rows_seq().len(),
                0 <= i <= n,
                forall|j: int| 0 <= j < i ==> self.rows_seq()[j].source_path@ != source_path@,
            decreases n - i,
        {
            if str_eq(self.rows[i].source_path.as_str(), source_path) {
                let ghost pre = *self;
                proof {
                    assert(pre.rows_seq()[i as int].source_path@ == source_path@);
                    assert(pre.has_source(source_path@));
                }
                self.rows[i] = row;
                proof {
                    assert(self.rows_seq() == pre.rows_seq().update(i as int, rowg));
                    assert(upsert_effect(*old(self), *self, source_path@, *session, rowg));
                    assert forall|a: int, b: int|
                        0 <= a < b < self.rows_seq().len() implies self.rows_seq()[a].source_path@
                        != self.rows_seq()[b].source_path@ by {
                        assert(pre.rows_seq()[a].source_path@ != pre.rows_seq()[b].source_path@);
                    }
                }
                return ;
            }
            i = i + 1;
        }
        let ghost pre = *self;
        self.rows.push(row);
        proof {
            assert(!pre.has_source(source_path@));
            assert(self.rows_seq() == pre.rows_seq().push(rowg));
            assert(upsert_effect(*old(self), *self, source_path@, *session, rowg));
            assert forall|a: int, b: int|
                0 <= a < b < self.rows_seq().len() implies self.rows_seq()[a].source_path@
                != self.rows_seq()[b].source_path@ by {
                if b < pre.rows_seq().len() {
                    assert(pre.rows_seq()[a].source_path@ != pre.rows_seq()[b].source_path@);
                } else {
                    assert(self.rows_seq()[b] == rowg);
                    assert(pre.rows_seq()[a].source_path@ != source_path@);
                }
            }
        }
    }

    /// Every stored session whose interval `[start, end)` intersects
    /// `[range_start, range_end)`, in storage order.
    pub fn query_range(&self, range_start: i64, range_end: i64) -> (r: Vec<Session>)
        requires
            self.wf(),
        ensures
            r@ == self.sessions_in_window(range_start as int, range_end as int),
            forall|i: int| 0 <= i < r@.len() ==> #[trigger] r@[i].duration >= 0,
    {
        let ghost f = |row: SessionRow| row.session;
        let ghost p = |s: Session| range_matches(s, range_start as int, range_end as int);
        let mut out: Vec<Session> = Vec::new();
        let n = self.rows.len();
        let mut i: usize = 0;
        proof {
            reveal(Seq::filter);
            assert(self.rows_seq().take(0).map_values(f) =~= Seq::<Session>::empty());
        }
        while i < n
            invariant
                n == self.rows_seq().len(),
                0 <= i <= n,
                self.wf(),
                f == (|row: SessionRow| row.session),
                p == (|s: Session| range_matches(s, range_start as int, range_end as int)),
                out@ == self.rows_seq().take(i as int).map_values(f).filter(p),
                forall|k: int| 0 <= k < out@.len() ==> #[trigger] out@[k].duration >= 0,
            decreases n - i,
        {
            proof {
                reveal(Seq::filter);
                let cur = self.rows_seq().take(i + 1).map_values(f);
                assert(cur.drop_last() =~= self.rows_seq().take(i as int).map_values(f));
                assert(cur.last() == f(self.rows_seq()[i as int]));
            }
            let row = &self.rows[i];
            if row.session.start < range_end && row.session.end >= range_start {
                out.push(row.session.clone());
            }
            i = i + 1;
        }
        proof {
            assert(self.rows_seq().take(n as int) =~= self.rows_seq());
        }
        out
    }

    /// The minimum stored start instant, by storage scan.
    pub closed spec fn min_start(rows: Seq<SessionRow>) -> int
        decreases rows.len(),
    {
        if rows.len() <= 1 {
            if rows.len() == 0 {
                0
            } else {
                rows[0].session.start as int
            }
        } else {
            let rest = Self::min_start(rows.drop_last());
            let last = rows.last().session.start as int;
            if last < rest {
                last
            } else {
                rest
            }
        }
    }

    /// `min_start` is a stored start and a lower bound for all of them.
    pub proof fn lemma_min_start(rows: Seq<SessionRow>)
        requires
            rows.len() > 0,
        ensures
            exists|i: int|
                0 <= i < rows.len() && #[trigger] rows[i].session.start == Self::min_start(rows),
            forall|i: int|
                0 <= i < rows.len() ==> Self::min_start(rows) <= #[trigger] rows[i].session.start,
        decreases rows.len(),
    {
        if rows.len() > 1 {
            Self::lemma_min_start(rows.drop_last());
            let rest = Self::min_start(rows.drop_last());
            let k = choose|i: int|
                0 <= i < rows.drop_last().len() && #[trigger] rows.drop_last()[i].session.start
                    == rest;
            if rows.last().session.start < rest {
                assert(rows[rows.len() - 1].session.start == Self::min_start(rows));
            } else {
                assert(rows.drop_last()[k] == rows[k]);
                assert(rows[k].session.start == Self::min_start(rows));
            }
            assert forall|i: int|
                0 <= i < rows.len() implies Self::min_start(rows)
                <= #[trigger] rows[i].session.start by {
                if i < rows.len() - 1 {
                    assert(rows.drop_last()[i] == rows[i]);
                    assert(rest <= rows.drop_last()[i].session.start);
                }
            }
        } else {
            assert(rows[0].session.start == Self::min_start(rows));
        }
    }

    /// The local calendar date of the earliest stored session start, or
    /// `None` when the store holds no sessions. The local date lies within
    /// one day of the UTC day of the minimum start, the same bound the stored
    /// per-row date carries.
    pub fn earliest_session_date(&self) -> (r: Option<i64>)
        requires
            self.wf(),
        ensures
            match r {
                None => self.rows_seq().len() == 0,
                Some(d) => self.rows_seq().len() > 0 && clock::utc_day_of(
                    Self::min_start(self.rows_seq()),
                ) - 1 <= d <= clock::utc_day_of(Self::min_start(self.rows_seq())) + 1,
            },
    {
        let n = self.rows.len();
        if n == 0 {
            return None;
        }
        let mut m: i64 = self.rows[0].session.start;
        let mut i: usize = 1;
        proof {
            assert(self.rows_seq().take(1).len() == 1);
            assert(self.rows_seq().take(1)[0] == self.rows_seq()[0]);
        }
        while i < n
            invariant
                n == self.rows_seq().len(),
                1 <= i <= n,
                m == Self::min_start(self.rows_seq().take(i as int)),
            decreases n - i,
        {
            proof {
                let cur = self.rows_seq().take(i + 1);
                assert(cur.drop_last() =~= self.rows_seq().take(i as int));
                assert(cur.last() == self.rows_seq()[i as int]);
            }
            if self.rows[i].session.start < m {
                m = self.rows[i].session.start;
            }
            i = i + 1;
        }
        proof {
            assert(self.rows_seq().take(n as int) =~= self.rows_seq());
        }
        match clock::local_day_of(m) {
            Some(d) => Some(d),
            None => Some(clock::utc_day(m)),
        }
    }

    /// The stored calendar date of a source's row, if any.
    pub fn session_date(&self, source_path: &str) -> (r: Option<i64>)
        requires
            self.wf(),
        ensures
            match r {
                Some(d) => self.has_source(source_path@) && d == self.row_for(source_path@).date,
                None => !self.has_source(source_path@),
            },
    {
        let n = self.rows.len();
        let mut i: usize = 0;
        while i < n
            invariant
                n == self.rows_seq().len(),
                self.wf(),
                0 <= i <= n,
                forall|j: int| 0 <= j < i ==> self.rows_seq()[j].source_path@ != source_path@,
            decreases n - i,
        {
            if str_eq(self.rows[i].source_path.as_str(), source_path) {
                proof {
                    lemma_row_at(*self, source_path@, i as int);
                }
                return Some(self.rows[i].date);
            }
            i = i + 1;
        }
        None
    }

    /// Whether the (date, workspace) pair carries a day-complete mark.
    pub fn is_day_synced(&self, date: i64, workspace_id: &str) -> (r: bool)
        ensures
            r == self.day_synced(date as int, workspace_id@),
    {
        let n = self.synced_days.len();
        let mut i: usize = 0;
        while i < n
            invariant
                n == self.day_marks().len(),
                0 <= i <= n,
                forall|j: int|
                    0 <= j < i ==> !(#[trigger] self.day_marks()[j].date == date
                        && self.day_marks()[j].workspace_id@ == workspace_id@),
            decreases n - i,
        {
            let mark = &self.synced_days[i];
            if mark.date == date && str_eq(mark.workspace_id.as_str(), workspace_id) {
                return true;
            }
            i = i + 1;
        }
        false
    }

    /// Record a day-complete mark; an error if the key is already marked.
    pub fn mark_day_synced(&mut self, date: i64, workspace_id: &str) -> (r: Result<(), StoreError>)
        requires
            old(self).wf(),
        ensures
            final(self).wf(),
            match r {
                Ok(_) => !old(self).day_synced(date as int, workspace_id@)
                    && final(self).day_synced(date as int, workspace_id@)
                    && exists|m: DayMark|
                    #[trigger] mark_day_effect(*old(self), *final(self), date as int, workspace_id@, m),
                Err(_) => old(self).day_synced(date as int, workspace_id@)
                    && *final(self) == *old(self),
            },
    {
        if self.is_day_synced(date, workspace_id) {
            return Err(StoreError::DuplicateKey);
        }
        let ghost pre = *self;
        self.synced_days.push(DayMark { date, workspace_id: workspace_id.to_owned() });
        proof {
            let m = self.day_marks().last();
            assert(mark_day_effect(pre, *self, date as int, workspace_id@, m));
            assert(self.day_synced(date as int, workspace_id@));
        }
        Ok(())
    }

    /// Whether the (date, workspace, project) triple carries an entry mark.
    pub fn is_entry_synced(&self, date: i64, workspace_id: &str, project_id: &str) -> (r: bool)
        ensures
            r == self.entry_synced(date as int, workspace_id@, project_id@),
    {
        let n = self.synced_entries.len();
        let mut i: usize = 0;
        while i < n
            invariant
                n == self.entry_marks().len(),
                0 <= i <= n,
                forall|j: int|
                    0 <= j < i ==> !(#[trigger] self.entry_marks()[j].date == date
                        && self.entry_marks()[j].workspace_id@ == workspace_id@
                        && self.entry_marks()[j].project_id@ == project_id@),
            decreases n - i,
        {
            let mark = &self.synced_entries[i];
            if mark.date == date && str_eq(mark.workspace_id.as_str(), workspace_id) && str_eq(
                mark.project_id.as_str(),
                project_id,
            ) {
                return true;
            }
            i = i + 1;
        }
        false
    }

    /// Record an entry mark holding the external entry identifier; an error
    /// if the key is already marked.
    pub fn mark_entry_synced(
        &mut self,
        date: i64,
        workspace_id: &str,
        project_id: &str,
        entry_id: &str,
    ) -> (r: Result<(), StoreError>)
        requires
            old(self).wf(),
        ensures
            final(self).wf(),
            match r {
                Ok(_) => !old(self).entry_synced(date as int, workspace_id@, project_id@)
                    && final(self).entry_synced(date as int, workspace_id@, project_id@)
                    && exists|m: EntryMark|
                    #[trigger] mark_entry_effect(
                        *old(self),
                        *final(self),
                        date as int,
                        workspace_id@,
                        project_id@,
                        entry_id@,
                        m,
                    ),
                Err(_) => old(self).entry_synced(date as int, workspace_id@, project_id@)
                    && *final(self) == *old(self),
            },
    {
        if self.is_entry_synced(date, workspace_id, project_id) {
            return Err(StoreError::DuplicateKey);
        }
        let ghost pre = *self;
        self.synced_entries.push(
            EntryMark {
                date,
                workspace_id: workspace_id.to_owned(),
                project_id: project_id.to_owned(),
                entry_id: entry_id.to_owned(),
            },
        );
        proof {
            let m = self.entry_marks().last();
            assert(mark_entry_effect(
                pre,
                *self,
                date as int,
                workspace_id@,
                project_id@,
                entry_id@,
                m,
            ));
            assert(self.entry_synced(date as int, workspace_id@, project_id@));
        }
        Ok(())
    }
}

/// Law: a range query returns a stored session exactly when its interval
/// intersects the range: `start < range_end` and `end >= range_start`.
pub proof fn lemma_query_range_iff(rows: Seq<Session>, a: int, b: int, s: Session)
    ensures
        rows.filter(|x: Session| range_matches(x, a, b)).contains(s) <==> rows.contains(s)
            && range_matches(s, a, b),
    decreases rows.len(),
{
    reveal(Seq::filter);
    let p = |x: Session| range_matches(x, a, b);
    if rows.len() > 0 {
        lemma_query_range_iff(rows.drop_last(), a, b, s);
        assert(rows.drop_last().push(rows.last()) =~= rows);
        if rows.drop_last().contains(s) {
            assert(rows.contains(s));
        }
        if rows.contains(s) && s != rows.last() {
            let i = choose|i: int| 0 <= i < rows.len() && rows[i] == s;
            assert(rows.drop_last()[i] == s);
            assert(rows.drop_last().contains(s));
        }
        if rows.drop_last().filter(p).contains(s) {
            let fp = rows.filter(p);
            let fd = rows.drop_last().filter(p);
            let i = choose|i: int| 0 <= i < fd.len() && fd[i] == s;
            if p(rows.last()) {
                assert(fp == fd.push(rows.last()));
                assert(fp[i] == s);
            } else {
                assert(fp == fd);
            }
            assert(fp.contains(s));
        }
        if rows.filter(p).contains(s) {
            let fp = rows.filter(p);
            let fd = rows.drop_last().filter(p);
            let i = choose|i: int| 0 <= i < fp.len() && fp[i] == s;
            if p(rows.last()) {
                assert(fp == fd.push(rows.last()));
                if i < fd.len() {
                    assert(fd.contains(s));
                }
            } else {
                assert(fp == fd);
                assert(fd.contains(s));
            }
        }
    }
}

/// Law: upserting the same source path twice leaves exactly one row for it,
/// holding the values of the later call; every other source is untouched.
pub proof fn lemma_upsert_idempotent(
    s0: Store,
    s1: Store,
    s2: Store,
    sp: Seq<char>,
    a: Session,
    b: Session,
    r1: SessionRow,
    r2: SessionRow,
)
    requires
        s0.wf(),
        s1.wf(),
        s2.wf(),
        upsert_effect(s0, s1, sp, a, r1),
        upsert_effect(s1, s2, sp, b, r2),
    ensures
        s2.has_source(sp),
        s2.session_for(sp) == b,
        s2.session_count() == s0.session_count() + (if s0.has_source(sp) {
            0int
        } else {
            1int
        }),
        forall|sp2: Seq<char>| sp2 != sp ==> s2.has_source(sp2) == s0.has_source(sp2),
        forall|sp2: Seq<char>|
            sp2 != sp && s0.has_source(sp2) ==> s2.session_for(sp2) == s0.session_for(sp2),
{
    // The first upsert leaves a row keyed sp, so the second replaces in place.
    let k1: int = if s0.has_source(sp) {
        choose|i: int|
            0 <= i < s0.rows_seq().len() && #[trigger] s0.rows_seq()[i].source_path@ == sp
                && s1.rows_seq() == s0.rows_seq().update(i, r1)
    } else {
        s0.rows_seq().len() as int
    };
    assert(s1.rows_seq()[k1] == r1);
    lemma_row_at(s1, sp, k1);
    assert(s1.has_source(sp));

    let k2: int = choose|i: int|
        0 <= i < s1.rows_seq().len() && #[trigger] s1.rows_seq()[i].source_path@ == sp
            && s2.rows_seq() == s1.rows_seq().update(i, r2);
    lemma_row_at(s1, sp, k2);
    assert(k2 == k1) by {
        lemma_row_at(s1, sp, k1);
    }
    assert(s2.rows_seq()[k2] == r2);
    lemma_row_at(s2, sp, k2);
    assert(s2.session_for(sp) == b);

    assert forall|sp2: Seq<char>| sp2 != sp implies s2.has_source(sp2) == s0.has_source(sp2) by {
        if s0.has_source(sp2) {
            let i = choose|i: int|
                0 <= i < s0.rows_seq().len() && #[trigger] s0.rows_seq()[i].source_path@ == sp2;
            assert(i != k1);
            assert(s2.rows_seq()[i] == s0.rows_seq()[i]);
            assert(s2.has_source(sp2));
        }
        if s2.has_source(sp2) {
            let i = choose|i: int|
                0 <= i < s2.rows_seq().len() && #[trigger] s2.rows_seq()[i].source_path@ == sp2;
            assert(i != k1);
            assert(i < s0.rows_seq().len());
            assert(s0.rows_seq()[i] == s2.rows_seq()[i]);
            assert(s0.has_source(sp2));
        }
    }
    assert forall|sp2: Seq<char>|
        sp2 != sp && s0.has_source(sp2) implies s2.session_for(sp2) == s0.session_for(sp2) by {
        let i = choose|i: int|
            0 <= i < s0.rows_seq().len() && #[trigger] s0.rows_seq()[i].source_path@ == sp2;
        assert(i != k1);
        assert(s2.rows_seq()[i] == s0.rows_seq()[i]);
        lemma_row_at(s0, sp2, i);
        lemma_row_at(s2, sp2, i);
    }
}

/// After a day is marked synced, that exact key reads back as synced, and
/// every other key is unaffected.
pub proof fn lemma_mark_day_independent(
    pre: Store,
    post: Store,
    date: int,
    ws: Seq<char>,
    m: DayMark,
)
    requires
        mark_day_effect(pre, post, date, ws, m),
    ensures
        post.day_synced(date, ws),
        forall|d2: int, w2: Seq<char>|
            !(d2 == date && w2 == ws) ==> post.day_synced(d2, w2) == pre.day_synced(d2, w2),
{
    let n = pre.day_marks().len() as int;
    assert(post.day_marks()[n] == m);
    assert(post.day_synced(date, ws));
    assert forall|d2: int, w2: Seq<char>|
        !(d2 == date && w2 == ws) implies post.day_synced(d2, w2) == pre.day_synced(d2, w2) by {
        if pre.day_synced(d2, w2) {
            let i = choose|i: int|
                0 <= i < pre.day_marks().len() && #[trigger] pre.day_marks()[i].date == d2
                    && pre.day_marks()[i].workspace_id@ == w2;
            assert(post.day_marks()[i] == pre.day_marks()[i]);
            assert(post.day_synced(d2, w2));
        }
        if post.day_synced(d2, w2) {
            let i = choose|i: int|
                0 <= i < post.day_marks().len() && #[trigger] post.day_marks()[i].date == d2
                    && post.day_marks()[i].workspace_id@ == w2;
            if i < n {
                assert(pre.day_marks()[i] == post.day_marks()[i]);
                assert(pre.day_synced(d2, w2));
            } else {
                assert(post.day_marks()[i] == m);
            }
        }
    }
}

/// Law: after an entry is marked synced, that exact key reads back as synced,
/// and every other key is unaffected.
pub proof fn lemma_mark_entry_independent(
    pre: Store,
    post: Store,
    date: int,
    ws: Seq<char>,
    pid: Seq<char>,
    eid: Seq<char>,
    m: EntryMark,
)
    requires
        mark_entry_effect(pre, post, date, ws, pid, eid, m),
    ensures
        post.entry_synced(date, ws, pid),
        forall|d2: int, w2: Seq<char>, p2: Seq<char>|
            !(d2 == date && w2 == ws && p2 == pid) ==> post.entry_synced(d2, w2, p2)
                == pre.entry_synced(d2, w2, p2),
{
    let n = pre.entry_marks().len() as int;
    assert(post.entry_marks()[n] == m);
    assert(post.entry_synced(date, ws, pid));
    assert forall|d2: int, w2: Seq<char>, p2: Seq<char>|
        !(d2 == date && w2 == ws && p2 == pid) implies post.entry_synced(d2, w2, p2)
        == pre.entry_synced(d2, w2, p2) by {
        if pre.entry_synced(d2, w2, p2) {
            let i = choose|i: int|
                0 <= i < pre.entry_marks().len() && #[trigger] pre.entry_marks()[i].date == d2
                    && pre.entry_marks()[i].workspace_id@ == w2
                    && pre.entry_marks()[i].project_id@ == p2;
            assert(post.entry_marks()[i] == pre.entry_marks()[i]);
            assert(post.entry_synced(d2, w2, p2));
        }
        if post.entry_synced(d2, w2, p2) {
            let i = choose|i: int|
                0 <= i < post.entry_marks().len() && #[trigger] post.entry_marks()[i].date == d2
                    && post.entry_marks()[i].workspace_id@ == w2
                    && post.entry_marks()[i].project_id@ == p2;
            if i < n {
                assert(pre.entry_marks()[i] == post.entry_marks()[i]);
                assert(pre.entry_synced(d2, w2, p2));
            } else {
                assert(post.entry_marks()[i] == m);
            }
        }
    }
}

} // verus!
