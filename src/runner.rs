use vstd::prelude::*;

use crate::catalog::{
    Catalog,
    CatalogError,
    Migration,
    MigrationKind,
    ascending,
    has_duplicate_version,
    has_empty_record,
    is_duplicated,
    is_empty_record,
    same_records,
};

verus! {

/// Why a migration run stopped.
#[derive(Debug)]
pub enum MigrationError {
    /// The catalog is invalid; the store was not touched.
    Catalog(CatalogError),
    /// Another process holds the store's migration lock; raised by the host,
    /// which owns the lock.
    StoreLocked,
    /// The transaction of this version failed and was rolled back; earlier
    /// versions stay applied.
    MigrationFailed { version: u64, cause: String },
    /// The store records a version that the catalog does not know.
    UnknownAppliedVersion(u64),
}

/// What the store reported for the transaction of one migration.
pub enum Outcome {
    Committed,
    Failed(String),
}

/// What the host is asked to do next.
#[derive(Clone, Copy, Debug, PartialEq, Eq, Structural)]
pub enum Step {
    /// Run every statement of the catalog entry at this position, and record
    /// its version, in one transaction; then report the outcome.
    Apply(usize),
    /// Nothing is left to apply; this many migrations were applied by the run.
    Finished(u64),
    /// A migration failed: the run is over and nothing more may be applied.
    Halted,
}

/// Some catalog entry carries version `v`.
pub open spec fn has_version(cat: Seq<Migration>, v: u64) -> bool {
    exists|j: int| 0 <= j < cat.len() && #[trigger] cat[j].version == v
}

/// Every recorded version belongs to the catalog.
pub open spec fn all_known(cat: Seq<Migration>, applied: Seq<u64>) -> bool {
    forall|i: int| 0 <= i < applied.len() ==> has_version(cat, #[trigger] applied[i])
}

/// Positions below `n` of forward records whose version is not recorded in
/// `applied`, ascending. Reverse records are never pending: only an explicit
/// operation outside the automatic run may apply them.
pub open spec fn pending_upto(cat: Seq<Migration>, applied: Seq<u64>, n: int) -> Seq<usize>
    decreases n,
{
    if n <= 0 {
        Seq::empty()
    } else {
        let p = pending_upto(cat, applied, n - 1);
        if cat[n - 1].kind == MigrationKind::Up && !applied.contains(cat[n - 1].version) {
            p.push((n - 1) as usize)
        } else {
            p
        }
    }
}

/// Catalog positions that a run on a store with bookkeeping `applied` must apply.
pub open spec fn pending_of(cat: Seq<Migration>, applied: Seq<u64>) -> Seq<usize> {
    pending_upto(cat, applied, cat.len() as int)
}

/// Versions of the catalog entries at positions `idx`.
pub open spec fn versions_at(cat: Seq<Migration>, idx: Seq<usize>) -> Seq<u64> {
    idx.map_values(|j: usize| cat[j as int].version)
}

/// No version occurs twice.
pub open spec fn no_repeats(s: Seq<u64>) -> bool {
    forall|i: int, j: int| 0 <= i < j < s.len() ==> #[trigger] s[i] != #[trigger] s[j]
}

/// Row `i` is the first recorded version that the catalog does not know.
pub open spec fn is_first_unknown(cat: Seq<Migration>, applied: Seq<u64>, i: int) -> bool {
    &&& 0 <= i < applied.len()
    &&& !has_version(cat, applied[i])
    &&& forall|k: int| 0 <= k < i ==> has_version(cat, #[trigger] applied[k])
}

/// Every catalog record from position `k` on is a forward one.
pub open spec fn all_up_from(cat: Seq<Migration>, k: int) -> bool {
    forall|j: int| k <= j < cat.len() ==> (#[trigger] cat[j]).kind == MigrationKind::Up
}

/// One of the first `k` catalog entries carries version `v`.
pub open spec fn in_first(cat: Seq<Migration>, k: int, v: u64) -> bool {
    exists|j: int| 0 <= j < k && #[trigger] cat[j].version == v
}

/// The recorded versions are exactly those of the first `k` catalog entries.
pub open spec fn is_first_k(cat: Seq<Migration>, applied: Seq<u64>, k: int) -> bool {
    forall|v: u64| #[trigger] applied.contains(v) <==> in_first(cat, k, v)
}

/// The recorded versions are those of a prefix of the catalog: no gap.
pub open spec fn is_prefix_state(cat: Seq<Migration>, applied: Seq<u64>) -> bool {
    exists|k: int| 0 <= k <= cat.len() && #[trigger] is_first_k(cat, applied, k)
}

/// Decides, migration by migration, what a run does on one store.
pub struct Runner {
    catalog: Catalog,
    applied: Vec<u64>,
    pending: Vec<usize>,
    pos: usize,
    halted: bool,
    initial: Ghost<Seq<u64>>,
}

impl Runner {
    pub closed spec fn catalog(&self) -> Seq<Migration> {
        self.catalog@
    }

    /// The bookkeeping rows as they stand now, in the order recorded.
    pub closed spec fn bookkeeping(&self) -> Seq<u64> {
        self.applied@
    }

    /// The bookkeeping rows that the run started from.
    pub closed spec fn initial(&self) -> Seq<u64> {
        self.initial@
    }

    pub closed spec fn pending(&self) -> Seq<usize> {
        self.pending@
    }

    /// How many pending migrations have been committed so far.
    pub closed spec fn position(&self) -> int {
        self.pos as int
    }

    pub closed spec fn is_halted(&self) -> bool {
        self.halted
    }

    pub closed spec fn wf(&self) -> bool {
        &&& self.catalog.wf()
        &&& self.catalog@.len() <= usize::MAX
        &&& all_known(self.catalog@, self.initial@)
        &&& self.pending@ == pending_of(self.catalog@, self.initial@)
        &&& self.pos <= self.pending@.len()
        &&& self.applied@ == self.initial@ + versions_at(
            self.catalog@,
            self.pending@.take(self.pos as int),
        )
    }
}

/// Shape of the pending list: ascending positions below `n`, exactly those whose
/// version is not recorded.
proof fn lemma_pending_shape(cat: Seq<Migration>, applied: Seq<u64>, n: int)
    requires
        0 <= n <= cat.len(),
        cat.len() <= usize::MAX,
    ensures
        forall|t: int|
            0 <= t < pending_upto(cat, applied, n).len() ==> (#[trigger] pending_upto(
                cat,
                applied,
                n,
            )[t] as int) < n,
        forall|s: int, t: int|
            0 <= s < t < pending_upto(cat, applied, n).len() ==> #[trigger] pending_upto(
                cat,
                applied,
                n,
            )[s] < #[trigger] pending_upto(cat, applied, n)[t],
        forall|j: int|
            0 <= j < n && cat[j].kind == MigrationKind::Up && !applied.contains(
                #[trigger] cat[j].version,
            ) ==> pending_upto(
                cat,
                applied,
                n,
            ).contains(j as usize),
        forall|t: int|
            0 <= t < pending_upto(cat, applied, n).len() ==> !applied.contains(
                cat[#[trigger] pending_upto(cat, applied, n)[t] as int].version,
            ) && cat[pending_upto(cat, applied, n)[t] as int].kind == MigrationKind::Up,
    decreases n,
{
    if n > 0 {
        lemma_pending_shape(cat, applied, n - 1);
        let p0 = pending_upto(cat, applied, n - 1);
        let p = pending_upto(cat, applied, n);
        assert forall|t: int| 0 <= t < p.len() implies !applied.contains(cat[#[trigger] p[t] as int].version)
            && cat[p[t] as int].kind == MigrationKind::Up by {
            if t < p0.len() {
                assert(p[t] == p0[t]);
            }
        }
        assert forall|s: int, t: int| 0 <= s < t < p.len() implies #[trigger] p[s] < #[trigger] p[t] by {
            assert(p[s] == p0[s]);
            if t < p0.len() {
                assert(p[t] == p0[t]);
            }
        }
        assert forall|j: int|
            0 <= j < n && cat[j].kind == MigrationKind::Up && !applied.contains(
                #[trigger] cat[j].version,
            ) implies p.contains(
            j as usize,
        ) by {
            if j < n - 1 {
                assert(p0.contains(j as usize));
                let i = choose|i: int| 0 <= i < p0.len() && p0[i] == j as usize;
                assert(p[i] == j as usize);
            } else {
                assert(p[p.len() - 1] == j as usize);
            }
        }
    }
}

/// Where every forward version below `n` is recorded, nothing below `n` is pending.
proof fn lemma_nothing_pending(cat: Seq<Migration>, applied: Seq<u64>, n: int)
    requires
        0 <= n <= cat.len(),
        forall|j: int|
            0 <= j < n && cat[j].kind == MigrationKind::Up ==> applied.contains(
                #[trigger] cat[j].version,
            ),
    ensures
        pending_upto(cat, applied, n).len() == 0,
    decreases n,
{
    if n > 0 {
        lemma_nothing_pending(cat, applied, n - 1);
    }
}

/// Where the first `k` versions are recorded, the pending positions are `k`, `k + 1`, ...
proof fn lemma_pending_after_prefix(cat: Seq<Migration>, applied: Seq<u64>, k: int, m: int)
    requires
        ascending(cat),
        cat.len() <= usize::MAX,
        0 <= k <= cat.len(),
        0 <= m <= cat.len(),
        is_first_k(cat, applied, k),
        all_up_from(cat, k),
    ensures
        pending_upto(cat, applied, m).len() == if m > k { m - k } else { 0 },
        forall|t: int|
            0 <= t < pending_upto(cat, applied, m).len() ==> #[trigger] pending_upto(
                cat,
                applied,
                m,
            )[t] as int == k + t,
    decreases m,
{
    if m > 0 {
        lemma_pending_after_prefix(cat, applied, k, m - 1);
        let v = cat[m - 1].version;
        if m - 1 < k {
            assert(in_first(cat, k, v));
            assert(applied.contains(v));
        } else {
            assert(!in_first(cat, k, v)) by {
                if in_first(cat, k, v) {
                    let j = choose|j: int| 0 <= j < k && #[trigger] cat[j].version == v;
                    assert(cat[j].version < cat[m - 1].version);
                }
            }
            assert(!applied.contains(v));
            let p0 = pending_upto(cat, applied, m - 1);
            let p = pending_upto(cat, applied, m);
            assert forall|t: int| 0 <= t < p.len() implies #[trigger] p[t] as int == k + t by {
                if t < p0.len() {
                    assert(p[t] == p0[t]);
                }
            }
        }
    }
}

/// Two lists that hold the same records know the same versions.
proof fn lemma_same_versions(a: Seq<Migration>, b: Seq<Migration>, v: u64)
    requires
        same_records(a, b),
    ensures
        has_version(a, v) == has_version(b, v),
{
    if has_version(a, v) {
        let j = choose|j: int| 0 <= j < a.len() && #[trigger] a[j].version == v;
        assert(b.contains(a[j]));
        let i = choose|i: int| 0 <= i < b.len() && b[i] == a[j];
        assert(b[i].version == v);
    }
    if has_version(b, v) {
        let j = choose|j: int| 0 <= j < b.len() && #[trigger] b[j].version == v;
        assert(a.contains(b[j]));
        let i = choose|i: int| 0 <= i < a.len() && a[i] == b[j];
        assert(a[i].version == v);
    }
}

/// The version that a run applies next is not yet recorded.
proof fn lemma_next_not_recorded(r: &Runner)
    requires
        r.wf(),
        r.pos < r.pending@.len(),
    ensures
        !r.applied@.contains(r.catalog@[r.pending@[r.pos as int] as int].version),
{
    let cat = r.catalog@;
    let pend = r.pending@;
    let init = r.initial@;
    let pos = r.pos as int;
    lemma_pending_shape(cat, init, cat.len() as int);
    let v = cat[pend[pos] as int].version;
    if r.applied@.contains(v) {
        let i = choose|i: int| 0 <= i < r.applied@.len() && r.applied@[i] == v;
        if i < init.len() {
            assert(init[i] == v);
        } else {
            let t = i - init.len();
            assert(pend[t] < pend[pos]);
            assert(cat[pend[t] as int].version < v);
        }
    }
}

/// Where nothing is recorded and every record is forward, every catalog
/// position below `n` is pending.
proof fn lemma_all_pending(cat: Seq<Migration>, n: int)
    requires
        0 <= n <= cat.len(),
        all_up_from(cat, 0),
    ensures
        pending_upto(cat, Seq::empty(), n).len() == n,
    decreases n,
{
    if n > 0 {
        lemma_all_pending(cat, n - 1);
        assert(!Seq::<u64>::empty().contains(cat[n - 1].version));
    }
}

fn contains_version(versions: &Vec<u64>, v: u64) -> (r: bool)
    ensures
        r == versions@.contains(v),
{
    let mut i: usize = 0;
    while i < versions.len()
        invariant
            i <= versions@.len(),
            forall|k: int| 0 <= k < i ==> versions@[k] != v,
        decreases versions.len() - i,
    {
        if versions[i] == v {
            assert(versions@[i as int] == v);
            return true;
        }
        i = i + 1;
    }
    false
}

impl Runner {
    /// Versions committed by this run so far, in the order they were applied.
    pub open spec fn applied_by_run(&self) -> Seq<u64> {
        versions_at(self.catalog(), self.pending().take(self.position()))
    }

    /// Starts a run on a store whose bookkeeping holds `applied`. Fails when the
    /// store records a version that the catalog does not know.
    pub fn start(catalog: Catalog, applied: Vec<u64>) -> (r: Result<Runner, MigrationError>)
        requires
            catalog.wf(),
        ensures
            r is Ok <==> all_known(catalog@, applied@),
            r matches Err(e) ==> (e matches MigrationError::UnknownAppliedVersion(v) && exists|i: int|
                #[trigger] is_first_unknown(catalog@, applied@, i) && applied@[i] == v),
            r matches Ok(run) ==> {
                &&& run.wf()
                &&& run.catalog() == catalog@
                &&& run.initial() == applied@
                &&& run.bookkeeping() == applied@
                &&& run.pending() == pending_of(catalog@, applied@)
                &&& run.position() == 0
                &&& !run.is_halted()
            },
    {
        let mut i: usize = 0;
        while i < applied.len()
            invariant
                i <= applied@.len(),
                forall|k: int| 0 <= k < i ==> has_version(catalog@, #[trigger] applied@[k]),
            decreases applied.len() - i,
        {
            let v = applied[i];
            match catalog.position_of(v) {
                Some(_) => {},
                None => {
                    assert(is_first_unknown(catalog@, applied@, i as int));
                    return Err(MigrationError::UnknownAppliedVersion(v));
                },
            }
            i = i + 1;
        }
        let mut pending: Vec<usize> = Vec::new();
        let n = catalog.len();
        let mut j: usize = 0;
        while j < n
            invariant
                j <= n,
                n == catalog@.len(),
                pending@ == pending_upto(catalog@, applied@, j as int),
            decreases n - j,
        {
            let entry = catalog.get(j);
            if entry.kind == MigrationKind::Up && !contains_version(&applied, entry.version) {
                pending.push(j);
            }
            j = j + 1;
        }
        let ghost init = applied@;
        let run = Runner {
            catalog,
            applied,
            pending,
            pos: 0,
            halted: false,
            initial: Ghost(init),
        };
        assert(run.applied@ =~= run.initial@ + versions_at(run.catalog@, run.pending@.take(0)));
        Ok(run)
    }

    /// Validates `entries` as a catalog and starts a run on a store whose
    /// bookkeeping holds `applied`; every failure comes before the store is
    /// written to.
    pub fn prepare(entries: Vec<Migration>, applied: Vec<u64>) -> (r: Result<Runner, MigrationError>)
        ensures
            r is Ok <==> !has_duplicate_version(entries@) && !has_empty_record(entries@)
                && all_known(entries@, applied@),
            r matches Err(MigrationError::Catalog(CatalogError::DuplicateVersion(v))) ==> is_duplicated(
                entries@,
                v,
            ),
            r matches Err(MigrationError::Catalog(CatalogError::EmptyStatement(v))) ==> {
                &&& !has_duplicate_version(entries@)
                &&& is_empty_record(entries@, v)
            },
            r matches Err(MigrationError::UnknownAppliedVersion(v)) ==> {
                &&& !has_duplicate_version(entries@)
                &&& !has_empty_record(entries@)
                &&& exists|i: int| #[trigger] is_first_unknown(entries@, applied@, i) && applied@[i] == v
            },
            !(r matches Err(MigrationError::Catalog(CatalogError::NonMonotonicCatalog))),
            !(r matches Err(MigrationError::StoreLocked)),
            !(r matches Err(MigrationError::MigrationFailed { .. })),
            r matches Ok(run) ==> {
                &&& run.wf()
                &&& same_records(entries@, run.catalog())
                &&& ascending(run.catalog())
                &&& !has_empty_record(run.catalog())
                &&& run.initial() == applied@
                &&& run.bookkeeping() == applied@
                &&& run.pending() == pending_of(run.catalog(), applied@)
                &&& run.position() == 0
                &&& !run.is_halted()
            },
    {
        let ghost e = entries@;
        let catalog = match Catalog::load(entries) {
            Ok(c) => c,
            Err(err) => {
                return Err(MigrationError::Catalog(err));
            },
        };
        let ghost cat = catalog@;
        let ghost a = applied@;
        proof {
            assert forall|v: u64| has_version(e, v) == has_version(cat, v) by {
                lemma_same_versions(e, cat, v);
            }
            assert(all_known(e, a) == all_known(cat, a));
            assert forall|i: int| is_first_unknown(cat, a, i) implies #[trigger] is_first_unknown(e, a, i) by {
                lemma_same_versions(e, cat, a[i]);
                assert forall|k: int| 0 <= k < i implies has_version(e, #[trigger] a[k]) by {
                    lemma_same_versions(e, cat, a[k]);
                }
            }
        }
        let r = Runner::start(catalog, applied);
        proof {
            match r {
                Err(MigrationError::UnknownAppliedVersion(v)) => {
                    let i = choose|i: int| #[trigger] is_first_unknown(cat, a, i) && a[i] == v;
                    assert(is_first_unknown(e, a, i));
                },
                _ => {},
            }
        }
        r
    }

    /// What the host must do next.
    pub fn next_step(&self) -> (r: Step)
        requires
            self.wf(),
        ensures
            self.is_halted() ==> r == Step::Halted,
            !self.is_halted() && self.position() < self.pending().len() ==> {
                &&& r == Step::Apply(self.pending()[self.position()])
                &&& (self.pending()[self.position()] as int) < self.catalog().len()
            },
            !self.is_halted() && self.position() == self.pending().len() ==> r == Step::Finished(
                self.position() as u64,
            ),
    {
        proof {
            lemma_pending_shape(self.catalog@, self.initial@, self.catalog@.len() as int);
        }
        if self.halted {
            Step::Halted
        } else if self.pos < self.pending.len() {
            Step::Apply(self.pending[self.pos])
        } else {
            Step::Finished(self.pos as u64)
        }
    }

    /// Takes the outcome of the transaction for the migration that `next_step`
    /// asked for. A commit records its version; a failure records nothing and
    /// ends the run.
    pub fn record(&mut self, outcome: Outcome) -> (r: Result<(), MigrationError>)
        requires
            old(self).wf(),
            !old(self).is_halted(),
            old(self).position() < old(self).pending().len(),
        ensures
            final(self).wf(),
            final(self).catalog() == old(self).catalog(),
            final(self).initial() == old(self).initial(),
            final(self).pending() == old(self).pending(),
            outcome is Committed ==> {
                &&& r is Ok
                &&& !final(self).is_halted()
                &&& final(self).position() == old(self).position() + 1
                &&& !old(self).bookkeeping().contains(
                    old(self).catalog()[old(self).pending()[old(self).position()] as int].version,
                )
                &&& final(self).bookkeeping() == old(self).bookkeeping().push(
                    old(self).catalog()[old(self).pending()[old(self).position()] as int].version,
                )
            },
            outcome matches Outcome::Failed(c) ==> {
                &&& final(self).is_halted()
                &&& final(self).position() == old(self).position()
                &&& final(self).bookkeeping() == old(self).bookkeeping()
                &&& !final(self).bookkeeping().contains(
                    old(self).catalog()[old(self).pending()[old(self).position()] as int].version,
                )
                &&& r matches Err(MigrationError::MigrationFailed { version, cause })
                &&& version == old(self).catalog()[old(self).pending()[old(self).position()] as int].version
                &&& cause == c
            },
    {
        proof {
            lemma_pending_shape(self.catalog@, self.initial@, self.catalog@.len() as int);
            lemma_next_not_recorded(self);
        }
        let idx = self.pending[self.pos];
        let version = self.catalog.get(idx).version;
        let total = self.pending.len();
        match outcome {
            Outcome::Committed => {
                assert(self.pos < total);
                self.applied.push(version);
                self.pos = self.pos + 1;
                proof {
                    let cat = self.catalog@;
                    let pend = self.pending@;
                    assert(pend.take(self.pos as int) =~= pend.take(self.pos - 1).push(idx));
                    assert(versions_at(cat, pend.take(self.pos as int)) =~= versions_at(
                        cat,
                        pend.take(self.pos - 1),
                    ).push(version));
                    assert(self.applied@ =~= self.initial@ + versions_at(cat, pend.take(self.pos as int)));
                }
                Ok(())
            },
            Outcome::Failed(cause) => {
                self.halted = true;
                Err(MigrationError::MigrationFailed { version, cause })
            },
        }
    }

    /// The catalog this run works through.
    pub fn catalog_ref(&self) -> (r: &Catalog)
        ensures
            r@ == self.catalog(),
    {
        &self.catalog
    }

    /// The bookkeeping rows as they stand now.
    pub fn applied_versions(&self) -> (r: &Vec<u64>)
        ensures
            r@ == self.bookkeeping(),
    {
        &self.applied
    }
}

/// What holds of a run at every step: its catalog is ordered and complete, its
/// pending list is fixed by the rows it started from, and the bookkeeping is
/// those rows followed by the versions applied so far, each known to the
/// catalog and none recorded twice where the starting rows had no repeats.
pub proof fn lemma_runner_state(r: &Runner)
    requires
        r.wf(),
    ensures
        ascending(r.catalog()),
        !has_empty_record(r.catalog()),
        all_known(r.catalog(), r.initial()),
        r.pending() == pending_of(r.catalog(), r.initial()),
        0 <= r.position() <= r.pending().len(),
        r.bookkeeping() == r.initial() + r.applied_by_run(),
        forall|t: int|
            0 <= t < r.applied_by_run().len() ==> !r.initial().contains(
                #[trigger] r.applied_by_run()[t],
            ),
        all_known(r.catalog(), r.bookkeeping()),
        no_repeats(r.initial()) ==> no_repeats(r.bookkeeping()),
{
    let cat = r.catalog@;
    let init = r.initial@;
    let pend = r.pending@;
    let done = r.applied_by_run();
    lemma_pending_shape(cat, init, cat.len() as int);
    assert forall|t: int| 0 <= t < done.len() implies !init.contains(#[trigger] done[t]) by {
        assert(done[t] == cat[pend[t] as int].version);
    }
    assert forall|i: int| 0 <= i < r.applied@.len() implies has_version(cat, #[trigger] r.applied@[i]) by {
        if i >= init.len() {
            let t = i - init.len();
            assert(cat[pend[t] as int].version == r.applied@[i]);
        } else {
            assert(init[i] == r.applied@[i]);
        }
    }
    if no_repeats(init) {
        assert forall|i: int, j: int| 0 <= i < j < r.applied@.len() implies #[trigger] r.applied@[i]
            != #[trigger] r.applied@[j] by {
            if j < init.len() {
                assert(init[i] != init[j]);
            } else if i < init.len() {
                assert(init[i] == r.applied@[i]);
                assert(!init.contains(done[j - init.len()]));
            } else {
                assert(pend[i - init.len()] < pend[j - init.len()]);
            }
        }
    }
}

/// A run that commits every pending migration applies exactly the forward
/// catalog versions its store lacked (the whole catalog, from an empty store and
/// a catalog of forward records) and leaves every forward version recorded, each
/// row known to the catalog. So a second run on that store starts, has nothing
/// pending, and finishes having applied nothing.
pub proof fn lemma_second_run_applies_nothing(r: &Runner)
    requires
        r.wf(),
        r.position() == r.pending().len(),
    ensures
        r.position() == pending_of(r.catalog(), r.initial()).len(),
        r.initial().len() == 0 && all_up_from(r.catalog(), 0) ==> r.position() == r.catalog().len(),
        forall|j: int|
            0 <= j < r.catalog().len() && r.catalog()[j].kind == MigrationKind::Up
                ==> r.bookkeeping().contains(#[trigger] r.catalog()[j].version),
        all_known(r.catalog(), r.bookkeeping()),
        pending_of(r.catalog(), r.bookkeeping()).len() == 0,
{
    let cat = r.catalog@;
    let init = r.initial@;
    let pend = r.pending@;
    lemma_runner_state(r);
    lemma_pending_shape(cat, init, cat.len() as int);
    if init.len() == 0 && all_up_from(cat, 0) {
        assert(init =~= Seq::<u64>::empty());
        lemma_all_pending(cat, cat.len() as int);
    }
    assert(pend.take(r.pos as int) =~= pend);
    assert forall|j: int|
        0 <= j < cat.len() && cat[j].kind == MigrationKind::Up implies r.applied@.contains(
            #[trigger] cat[j].version,
        ) by {
        if init.contains(cat[j].version) {
            let i = choose|i: int| 0 <= i < init.len() && init[i] == cat[j].version;
            assert(r.applied@[i] == cat[j].version);
        } else {
            assert(pend.contains(j as usize));
            let t = choose|t: int| 0 <= t < pend.len() && pend[t] == j as usize;
            assert(r.applied@[init.len() + t] == cat[j].version);
        }
    }
    lemma_nothing_pending(cat, r.applied@, cat.len() as int);
}

/// A run that starts from a store holding exactly the first `k` catalog
/// versions, where every later record is a forward one, holds after every step
/// exactly the first `k + position()` of them: a prefix never shorter than the
/// one it started from, with no gap, and the whole catalog once nothing is left
/// pending. (A reverse record past the prefix is never applied automatically,
/// so there the recorded versions would skip it.)
pub proof fn lemma_prefix_kept(r: &Runner, k: int)
    requires
        r.wf(),
        0 <= k <= r.catalog().len(),
        is_first_k(r.catalog(), r.initial(), k),
        all_up_from(r.catalog(), k),
    ensures
        k <= k + r.position() <= r.catalog().len(),
        is_first_k(r.catalog(), r.bookkeeping(), k + r.position()),
        is_prefix_state(r.catalog(), r.bookkeeping()),
        r.position() == r.pending().len() ==> k + r.position() == r.catalog().len(),
{
    let cat = r.catalog@;
    let init = r.initial@;
    let pend = r.pending@;
    let pos = r.pos as int;
    lemma_pending_after_prefix(cat, init, k, cat.len() as int);
    let done = versions_at(cat, pend.take(pos));
    assert(r.applied@ == init + done);
    assert forall|v: u64| #[trigger] r.applied@.contains(v) <==> in_first(cat, k + pos, v) by {
        if r.applied@.contains(v) {
            let i = choose|i: int| 0 <= i < r.applied@.len() && r.applied@[i] == v;
            if i < init.len() {
                assert(init[i] == v);
                assert(init.contains(v));
                let j = choose|j: int| 0 <= j < k && #[trigger] cat[j].version == v;
                assert(in_first(cat, k + pos, v));
            } else {
                let t = i - init.len();
                assert(pend[t] as int == k + t);
                assert(cat[k + t].version == v);
            }
        }
        if in_first(cat, k + pos, v) {
            let j = choose|j: int| 0 <= j < k + pos && #[trigger] cat[j].version == v;
            if j < k {
                assert(in_first(cat, k, v));
                assert(init.contains(v));
                let i = choose|i: int| 0 <= i < init.len() && init[i] == v;
                assert(r.applied@[i] == v);
            } else {
                let t = j - k;
                assert(pend[t] as int == k + t);
                assert(r.applied@[init.len() + t] == v);
            }
        }
    }
    assert(is_first_k(cat, r.applied@, k + pos));
}

/// A run applies migrations in strictly ascending version order, whatever order
/// the catalog's entries were listed in.
pub proof fn lemma_applied_in_ascending_order(r: &Runner)
    requires
        r.wf(),
    ensures
        forall|s: int, t: int|
            0 <= s < t < r.applied_by_run().len() ==> #[trigger] r.applied_by_run()[s]
                < #[trigger] r.applied_by_run()[t],
{
    let cat = r.catalog@;
    lemma_pending_shape(cat, r.initial@, cat.len() as int);
    let pend = r.pending@;
    assert forall|s: int, t: int| 0 <= s < t < r.applied_by_run().len() implies #[trigger] r.applied_by_run()[s]
        < #[trigger] r.applied_by_run()[t] by {
        assert(pend[s] < pend[t]);
    }
}

} // verus!
