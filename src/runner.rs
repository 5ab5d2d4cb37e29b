use vstd::prelude::*;

use crate::error::MigrationError;
use crate::history::HistoryRecord;
use crate::migration::{ascending, Catalog, Migration};
use crate::timestamp::Timestamp;

verus! {

/// The checksum held by the first record of version `v` in `h`.
pub open spec fn recorded_checksum(h: Seq<HistoryRecord>, v: u64) -> Option<u64>
    decreases h.len(),
{
    if h.len() == 0 {
        None
    } else if h[0].version == v {
        Some(h[0].checksum)
    } else {
        recorded_checksum(h.drop_first(), v)
    }
}

/// `m` is newer than every applied migration.
pub open spec fn is_pending(m: Migration, h: Seq<HistoryRecord>) -> bool {
    forall|i: int| 0 <= i < h.len() ==> #[trigger] h[i].version < m.version
}

/// What is wrong with a migration at or below the highest applied version:
/// no record of it, or a record with another checksum.
pub open spec fn offense(m: Migration, h: Seq<HistoryRecord>) -> Option<MigrationError> {
    if is_pending(m, h) {
        None
    } else {
        match recorded_checksum(h, m.version) {
            None => Some(MigrationError::MissingVersion(m.version)),
            Some(c) => if c == m.checksum {
                None
            } else {
                Some(MigrationError::ChecksumMismatch(m.version))
            },
        }
    }
}

/// The offense of the first catalog migration that has one.
pub open spec fn first_offense(c: Seq<Migration>, h: Seq<HistoryRecord>) -> Option<MigrationError>
    decreases c.len(),
{
    if c.len() == 0 {
        None
    } else {
        match offense(c[0], h) {
            Some(e) => Some(e),
            None => first_offense(c.drop_first(), h),
        }
    }
}

/// The catalog migrations that are pending, in catalog order.
pub open spec fn pending_of(c: Seq<Migration>, h: Seq<HistoryRecord>) -> Seq<Migration>
    decreases c.len(),
{
    if c.len() == 0 {
        Seq::empty()
    } else if is_pending(c[0], h) {
        seq![c[0]] + pending_of(c.drop_first(), h)
    } else {
        pending_of(c.drop_first(), h)
    }
}

/// In an ascending catalog the pending migrations are those from the first
/// pending one on.
pub proof fn lemma_pending_suffix(c: Seq<Migration>, h: Seq<HistoryRecord>, s: int)
    requires
        0 <= s <= c.len(),
        forall|k: int| 0 <= k < s ==> !is_pending(#[trigger] c[k], h),
        forall|k: int| s <= k < c.len() ==> is_pending(#[trigger] c[k], h),
    ensures
        pending_of(c, h) == c.subrange(s, c.len() as int),
    decreases c.len(),
{
    if c.len() > 0 {
        let t = c.drop_first();
        let s2 = if s > 0 { s - 1 } else { 0 };
        assert forall|k: int| 0 <= k < s2 implies !is_pending(#[trigger] t[k], h) by {
            assert(t[k] == c[k + 1]);
        }
        assert forall|k: int| s2 <= k < t.len() implies is_pending(#[trigger] t[k], h) by {
            assert(t[k] == c[k + 1]);
        }
        lemma_pending_suffix(t, h, s2);
        if s == 0 {
            assert(is_pending(c[0], h));
            assert(seq![c[0]] + t == c);
        } else {
            assert(!is_pending(c[0], h));
            assert(t.subrange(s2, t.len() as int) == c.subrange(s, c.len() as int));
        }
    } else {
        assert(c.subrange(s, c.len() as int) == Seq::<Migration>::empty());
    }
}

/// `max` is the highest version recorded in `h`, or `None` for no record.
pub open spec fn max_describes(max: Option<u64>, h: Seq<HistoryRecord>) -> bool {
    match max {
        None => h.len() == 0,
        Some(m) => (exists|i: int| 0 <= i < h.len() && #[trigger] h[i].version == m) && forall|
            i: int,
        | 0 <= i < h.len() ==> #[trigger] h[i].version <= m,
    }
}

proof fn lemma_pending_by_max(m: Migration, h: Seq<HistoryRecord>, max: Option<u64>)
    requires
        max_describes(max, h),
    ensures
        is_pending(m, h) <==> match max {
            None => true,
            Some(top) => top < m.version,
        },
{
    if let Some(top) = max {
        let i = choose|i: int| 0 <= i < h.len() && #[trigger] h[i].version == top;
        if is_pending(m, h) {
            assert(h[i].version < m.version);
        }
    }
}

/// A catalog whose migrations are all pending has nothing to check.
proof fn lemma_no_offense_when_pending(c: Seq<Migration>, h: Seq<HistoryRecord>)
    requires
        forall|k: int| 0 <= k < c.len() ==> is_pending(#[trigger] c[k], h),
    ensures
        first_offense(c, h) is None,
    decreases c.len(),
{
    if c.len() > 0 {
        assert(is_pending(c[0], h));
        let t = c.drop_first();
        assert forall|k: int| 0 <= k < t.len() implies is_pending(#[trigger] t[k], h) by {
            assert(t[k] == c[k + 1]);
        }
        lemma_no_offense_when_pending(t, h);
    }
}

/// Finds the checksum recorded for version `v`.
fn lookup_checksum(h: &Vec<HistoryRecord>, v: u64) -> (r: Option<u64>)
    ensures
        r == recorded_checksum(h@, v),
{
    let mut i: usize = 0;
    assert(h@.subrange(0, h@.len() as int) == h@);
    while i < h.len()
        invariant
            i <= h@.len(),
            recorded_checksum(h@, v) == recorded_checksum(h@.subrange(i as int, h@.len() as int), v),
        decreases h@.len() - i,
    {
        let ghost rest = h@.subrange(i as int, h@.len() as int);
        assert(rest[0] == h@[i as int]);
        if h[i].version == v {
            return Some(h[i].checksum);
        }
        assert(rest.drop_first() == h@.subrange(i + 1, h@.len() as int));
        i = i + 1;
    }
    None
}

/// The highest recorded version, if any record exists.
fn max_version(h: &Vec<HistoryRecord>) -> (r: Option<u64>)
    ensures
        max_describes(r, h@),
{
    if h.len() == 0 {
        return None;
    }
    let mut m: u64 = h[0].version;
    let mut i: usize = 1;
    while i < h.len()
        invariant
            1 <= i <= h@.len(),
            exists|j: int| 0 <= j < h@.len() && #[trigger] h@[j].version == m,
            forall|j: int| 0 <= j < i ==> #[trigger] h@[j].version <= m,
        decreases h@.len() - i,
    {
        if h[i].version > m {
            m = h[i].version;
        }
        i = i + 1;
    }
    Some(m)
}

/// One migration applied during a run.
#[derive(Debug)]
pub struct AppliedMigration {
    pub version: u64,
    pub name: String,
    pub applied_on: Timestamp,
}

/// The outcome of one run: the migrations applied, in the order applied.
#[derive(Debug)]
pub struct RunReport {
    pub applied: Vec<AppliedMigration>,
}

/// A run in progress. It is started from a catalog and the applied history,
/// then told of each pending migration in turn whether its statements
/// committed; it names the migration to apply next.
#[derive(Debug)]
pub struct Runner {
    catalog: Catalog,
    first: usize,
    next: usize,
    applied: Vec<AppliedMigration>,
}

impl Runner {
    /// The catalog of the run, in ascending version order.
    pub closed spec fn migrations(&self) -> Seq<Migration> {
        self.catalog@
    }

    /// The migrations that were pending when the run started.
    pub closed spec fn pending_at_start(&self) -> Seq<Migration> {
        self.catalog@.subrange(self.first as int, self.catalog@.len() as int)
    }

    /// The pending migrations not applied yet, in the order they will be applied.
    pub closed spec fn remaining(&self) -> Seq<Migration> {
        self.catalog@.subrange(self.next as int, self.catalog@.len() as int)
    }

    /// What this run has applied so far.
    pub closed spec fn applied_view(&self) -> Seq<AppliedMigration> {
        self.applied@
    }

    /// The migrations applied so far are the first pending ones, in order.
    pub closed spec fn wf(&self) -> bool {
        &&& self.catalog.wf()
        &&& self.first <= self.next <= self.catalog@.len()
        &&& self.applied@.len() == self.next - self.first
        &&& forall|i: int|
            0 <= i < self.applied@.len() ==> #[trigger] self.applied@[i].version
                == self.catalog@[self.first + i].version && self.applied@[i].name@
                == self.catalog@[self.first + i].name@
    }

    /// Checks the catalog against the applied history. Fails with the offense
    /// of the first catalog migration, in ascending version order, that has no
    /// record or whose checksum differs from the recorded one, among those not
    /// newer than every record. Otherwise the run starts with every newer
    /// migration pending.
    pub fn start(catalog: Catalog, history: &Vec<HistoryRecord>) -> (r: Result<Runner, MigrationError>)
        requires
            catalog.wf(),
        ensures
            match r {
                Ok(run) => {
                    &&& first_offense(catalog@, history@) is None
                    &&& run.wf()
                    &&& run.migrations() == catalog@
                    &&& run.pending_at_start() == pending_of(catalog@, history@)
                    &&& run.remaining() == pending_of(catalog@, history@)
                    &&& run.applied_view().len() == 0
                },
                Err(e) => first_offense(catalog@, history@) == Some(e),
            },
    {
        let max = max_version(history);
        let n = catalog.len();
        let ghost c = catalog@;
        let ghost h = history@;
        let mut k: usize = 0;
        assert(c.subrange(0, n as int) == c);
        while k < n
            invariant
                n == c.len(),
                ascending(c),
                c == catalog@,
                h == history@,
                k <= n,
                max_describes(max, h),
                first_offense(c, h) == first_offense(c.subrange(k as int, n as int), h),
                forall|j: int| 0 <= j < k ==> !is_pending(#[trigger] c[j], h),
            decreases n - k,
        {
            let m = catalog.get(k);
            let ghost rest = c.subrange(k as int, n as int);
            assert(rest[0] == c[k as int]);
            assert(rest.drop_first() == c.subrange(k + 1, n as int));
            let pending = match max {
                None => true,
                Some(top) => top < m.version,
            };
            proof {
                lemma_pending_by_max(*m, h, max);
            }
            if pending {
                proof {
                    assert forall|j: int| k <= j < n implies is_pending(#[trigger] c[j], h) by {
                        if j > k {
                            assert(c[k as int].version < c[j].version);
                        }
                    }
                    lemma_no_offense_when_pending(c.subrange(k as int, n as int), h);
                    lemma_pending_suffix(c, h, k as int);
                }
                return Ok(Runner { catalog, first: k, next: k, applied: Vec::new() });
            }
            match lookup_checksum(history, m.version) {
                None => {
                    return Err(MigrationError::MissingVersion(m.version));
                },
                Some(stored) => {
                    if stored != m.checksum {
                        return Err(MigrationError::ChecksumMismatch(m.version));
                    }
                },
            }
            k = k + 1;
        }
        proof {
            assert(c.subrange(n as int, n as int).len() == 0);
            lemma_pending_suffix(c, h, n as int);
        }
        Ok(Runner { catalog, first: n, next: n, applied: Vec::new() })
    }

    /// The migration to apply next, or `None` once every pending one is applied.
    pub fn next_migration(&self) -> (r: Option<&Migration>)
        requires
            self.wf(),
        ensures
            match r {
                Some(m) => self.remaining().len() > 0 && *m == self.remaining()[0],
                None => self.remaining().len() == 0,
            },
    {
        if self.next < self.catalog.len() {
            Some(self.catalog.get(self.next))
        } else {
            None
        }
    }

    /// The history record that commits the next migration, applied at `applied_on`.
    pub fn history_record(&self, applied_on: Timestamp) -> (r: HistoryRecord)
        requires
            self.wf(),
            self.remaining().len() > 0,
        ensures
            r.version == self.remaining()[0].version,
            r.name@ == self.remaining()[0].name@,
            r.checksum == self.remaining()[0].checksum,
            r.applied_on == applied_on,
    {
        let m = self.catalog.get(self.next);
        HistoryRecord {
            version: m.version,
            name: m.name.clone(),
            applied_on,
            checksum: m.checksum,
        }
    }

    /// The statements of the next migration and its history record committed
    /// at `applied_on`: the run moves on to the one after it.
    pub fn mark_applied(&mut self, applied_on: Timestamp)
        requires
            old(self).wf(),
            old(self).remaining().len() > 0,
        ensures
            final(self).wf(),
            final(self).migrations() == old(self).migrations(),
            final(self).pending_at_start() == old(self).pending_at_start(),
            final(self).remaining() == old(self).remaining().drop_first(),
            final(self).applied_view().len() == old(self).applied_view().len() + 1,
            forall|i: int|
                0 <= i < old(self).applied_view().len() ==> #[trigger] final(self).applied_view()[i]
                    == old(self).applied_view()[i],
            final(self).applied_view().last().version == old(self).remaining()[0].version,
            final(self).applied_view().last().name@ == old(self).remaining()[0].name@,
            final(self).applied_view().last().applied_on == applied_on,
    {
        let n = self.catalog.len();
        let m = self.catalog.get(self.next);
        let entry = AppliedMigration { version: m.version, name: m.name.clone(), applied_on };
        self.applied.push(entry);
        self.next = self.next + 1;
        proof {
            assert(old(self).remaining().drop_first() == self.remaining());
        }
    }

    /// The statements of the next migration failed with `cause` and were
    /// rolled back: the run ends with this error, and nothing after it is
    /// applied.
    pub fn fail(self, cause: String) -> (r: MigrationError)
        requires
            self.wf(),
            self.remaining().len() > 0,
        ensures
            r == MigrationError::Execution(self.remaining()[0].version, cause),
    {
        let v = self.catalog.get(self.next).version;
        MigrationError::Execution(v, cause)
    }

    /// Ends the run with the report of what it applied: the first pending
    /// migrations, in ascending version order, all of them once none remains.
    pub fn finish(self) -> (r: RunReport)
        requires
            self.wf(),
        ensures
            r.applied@ == self.applied_view(),
            r.applied@.len() == self.pending_at_start().len() - self.remaining().len(),
            forall|i: int|
                0 <= i < r.applied@.len() ==> #[trigger] r.applied@[i].version
                    == self.pending_at_start()[i].version && r.applied@[i].name@
                    == self.pending_at_start()[i].name@,
    {
        proof {
            assert forall|i: int| 0 <= i < self.applied@.len() implies #[trigger] self.applied@[i].version
                == self.pending_at_start()[i].version && self.applied@[i].name@
                == self.pending_at_start()[i].name@ by {
                assert(self.wf());
                assert(self.applied@[i].version == self.catalog@[self.first + i].version);
                assert(self.pending_at_start()[i] == self.catalog@[self.first + i]);
            }
        }
        RunReport { applied: self.applied }
    }
}


proof fn lemma_recorded_append(h: Seq<HistoryRecord>, a: Seq<HistoryRecord>, v: u64)
    ensures
        recorded_checksum(h + a, v) == match recorded_checksum(h, v) {
            Some(c) => Some(c),
            None => recorded_checksum(a, v),
        },
    decreases h.len(),
{
    if h.len() == 0 {
        assert(h + a == a);
    } else {
        assert((h + a)[0] == h[0]);
        assert((h + a).drop_first() == h.drop_first() + a);
        lemma_recorded_append(h.drop_first(), a, v);
    }
}

proof fn lemma_recorded_none(h: Seq<HistoryRecord>, v: u64)
    requires
        forall|i: int| 0 <= i < h.len() ==> #[trigger] h[i].version != v,
    ensures
        recorded_checksum(h, v) is None,
    decreases h.len(),
{
    if h.len() > 0 {
        assert(h[0].version != v);
        let t = h.drop_first();
        assert forall|i: int| 0 <= i < t.len() implies #[trigger] t[i].version != v by {
            assert(t[i] == h[i + 1]);
        }
        lemma_recorded_none(t, v);
    }
}

proof fn lemma_recorded_at(h: Seq<HistoryRecord>, v: u64, i: int)
    requires
        0 <= i < h.len(),
        h[i].version == v,
        forall|j: int| 0 <= j < i ==> #[trigger] h[j].version != v,
    ensures
        recorded_checksum(h, v) == Some(h[i].checksum),
    decreases i,
{
    if i > 0 {
        let t = h.drop_first();
        assert(h[0].version != v);
        assert(t[i - 1] == h[i]);
        assert forall|j: int| 0 <= j < i - 1 implies #[trigger] t[j].version != v by {
            assert(t[j] == h[j + 1]);
        }
        lemma_recorded_at(t, v, i - 1);
    }
}

proof fn lemma_first_offense_none(c: Seq<Migration>, h: Seq<HistoryRecord>)
    ensures
        first_offense(c, h) is None <==> forall|k: int|
            0 <= k < c.len() ==> #[trigger] offense(c[k], h) is None,
    decreases c.len(),
{
    if c.len() > 0 {
        let t = c.drop_first();
        lemma_first_offense_none(t, h);
        assert forall|k: int| 1 <= k < c.len() implies #[trigger] c[k] == t[k - 1] by {}
        if first_offense(c, h) is None {
            assert forall|k: int| 0 <= k < c.len() implies #[trigger] offense(c[k], h) is None by {
                if k > 0 {
                    assert(offense(t[k - 1], h) is None);
                }
            }
        }
        if forall|k: int| 0 <= k < c.len() ==> #[trigger] offense(c[k], h) is None {
            assert(offense(c[0], h) is None);
            assert forall|k: int| 0 <= k < t.len() implies #[trigger] offense(t[k], h) is None by {
                assert(offense(c[k + 1], h) is None);
            }
        }
    }
}

proof fn lemma_first_offense_at(c: Seq<Migration>, h: Seq<HistoryRecord>, k: int)
    requires
        0 <= k < c.len(),
        offense(c[k], h) is Some,
        forall|j: int| 0 <= j < k ==> #[trigger] offense(c[j], h) is None,
    ensures
        first_offense(c, h) == offense(c[k], h),
    decreases k,
{
    if k > 0 {
        let t = c.drop_first();
        assert(offense(c[0], h) is None);
        assert(t[k - 1] == c[k]);
        assert forall|j: int| 0 <= j < k - 1 implies #[trigger] offense(t[j], h) is None by {
            assert(t[j] == c[j + 1]);
        }
        lemma_first_offense_at(t, h, k - 1);
    }
}

/// Splits an ascending catalog at its first pending migration.
proof fn lemma_pending_split(c: Seq<Migration>, h: Seq<HistoryRecord>) -> (s: int)
    requires
        ascending(c),
    ensures
        0 <= s <= c.len(),
        forall|k: int| 0 <= k < s ==> !is_pending(#[trigger] c[k], h),
        forall|k: int| s <= k < c.len() ==> is_pending(#[trigger] c[k], h),
    decreases c.len(),
{
    if c.len() == 0 {
        0
    } else if is_pending(c[0], h) {
        assert forall|k: int| 0 <= k < c.len() implies is_pending(#[trigger] c[k], h) by {
            if k > 0 {
                assert(c[0].version < c[k].version);
                assert forall|i: int| 0 <= i < h.len() implies #[trigger] h[i].version
                    < c[k].version by {
                    assert(h[i].version < c[0].version);
                }
            }
        }
        0
    } else {
        let t = c.drop_first();
        assert forall|i: int, j: int| 0 <= i < j < t.len() implies t[i].version < t[j].version by {
            assert(t[i] == c[i + 1] && t[j] == c[j + 1]);
        }
        let s2 = lemma_pending_split(t, h);
        assert forall|k: int| 1 <= k < c.len() implies #[trigger] c[k] == t[k - 1] by {}
        assert forall|k: int| 0 <= k < s2 + 1 implies !is_pending(#[trigger] c[k], h) by {
            if k > 0 {
                assert(!is_pending(t[k - 1], h));
            }
        }
        assert forall|k: int| s2 + 1 <= k < c.len() implies is_pending(#[trigger] c[k], h) by {
            assert(is_pending(t[k - 1], h));
        }
        s2 + 1
    }
}

/// The pending migrations of an ascending catalog are applied in ascending
/// version order.
pub proof fn lemma_pending_ascending(c: Seq<Migration>, h: Seq<HistoryRecord>)
    requires
        ascending(c),
    ensures
        ascending(pending_of(c, h)),
{
    let s = lemma_pending_split(c, h);
    lemma_pending_suffix(c, h, s);
    let p = pending_of(c, h);
    assert forall|i: int, j: int| 0 <= i < j < p.len() implies p[i].version < p[j].version by {
        assert(p[i] == c[s + i] && p[j] == c[s + j]);
    }
}

/// Running again after a run that applied every pending migration applies
/// nothing: once the history holds, in order, a record of each migration that
/// was pending, with its version and checksum, the catalog still agrees with
/// the history and no migration is pending.
pub proof fn lemma_rerun_applies_nothing(
    c: Seq<Migration>,
    h: Seq<HistoryRecord>,
    added: Seq<HistoryRecord>,
)
    requires
        ascending(c),
        first_offense(c, h) is None,
        added.len() == pending_of(c, h).len(),
        forall|i: int|
            0 <= i < added.len() ==> #[trigger] added[i].version == pending_of(c, h)[i].version
                && added[i].checksum == pending_of(c, h)[i].checksum,
    ensures
        first_offense(c, h + added) is None,
        pending_of(c, h + added).len() == 0,
{
    let s = lemma_pending_split(c, h);
    lemma_pending_suffix(c, h, s);
    lemma_first_offense_none(c, h);
    lemma_first_offense_none(c, h + added);
    let h2 = h + added;
    assert forall|k: int| 0 <= k < c.len() implies !is_pending(#[trigger] c[k], h2) && offense(
        c[k],
        h2,
    ) is None by {
        let m = c[k];
        let v = m.version;
        lemma_recorded_append(h, added, v);
        if k < s {
            assert(offense(m, h) is None);
            let i = choose|i: int| 0 <= i < h.len() && !(#[trigger] h[i].version < v);
            assert(h2[i] == h[i]);
        } else {
            let i = k - s;
            assert(pending_of(c, h)[i] == m);
            assert(added[i].version == v);
            assert(h2[h.len() + i] == added[i]);
            assert forall|j: int| 0 <= j < h.len() implies #[trigger] h[j].version != v by {
                assert(h[j].version < v);
            }
            lemma_recorded_none(h, v);
            assert forall|j: int| 0 <= j < i implies #[trigger] added[j].version != v by {
                assert(added[j].version == pending_of(c, h)[j].version);
                assert(pending_of(c, h)[j] == c[s + j]);
                assert(c[s + j].version < c[k].version);
            }
            lemma_recorded_at(added, v, i);
        }
    }
    lemma_pending_suffix(c, h2, c.len() as int);
}

/// A migration whose recorded checksum differs from the catalog's stops the
/// run with a checksum mismatch of its version, before anything is applied,
/// where the history agrees with every other catalog migration.
pub proof fn lemma_drift_detected(c: Seq<Migration>, h: Seq<HistoryRecord>, k: int)
    requires
        0 <= k < c.len(),
        recorded_checksum(h, c[k].version) is Some,
        recorded_checksum(h, c[k].version) != Some(c[k].checksum),
        forall|j: int| 0 <= j < c.len() && j != k ==> #[trigger] offense(c[j], h) is None,
    ensures
        first_offense(c, h) == Some(MigrationError::ChecksumMismatch(c[k].version)),
{
    let v = c[k].version;
    if is_pending(c[k], h) {
        assert forall|j: int| 0 <= j < h.len() implies #[trigger] h[j].version != v by {
            assert(h[j].version < v);
        }
        lemma_recorded_none(h, v);
    }
    lemma_first_offense_at(c, h, k);
}

} // verus!
