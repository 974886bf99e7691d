use vstd::prelude::*;

verus! {

/// Direction of a migration.
#[derive(Clone, Copy, Debug, PartialEq, Eq, Structural)]
pub enum MigrationKind {
    Up,
    Down,
}

/// One versioned schema change: its statements run atomically, in listed order.
pub struct Migration {
    pub version: u64,
    pub description: String,
    pub statements: Vec<String>,
    pub kind: MigrationKind,
}

/// Why a list of migrations is not a valid catalog.
#[derive(Clone, Copy, Debug, PartialEq, Eq, Structural)]
pub enum CatalogError {
    /// Two records carry this version.
    DuplicateVersion(u64),
    /// Versions do not strictly increase. `Catalog::load` orders the records
    /// itself, so it never reports this.
    NonMonotonicCatalog,
    /// The record with this version has no statements.
    EmptyStatement(u64),
}

/// Versions strictly increase along the sequence.
pub open spec fn ascending(s: Seq<Migration>) -> bool {
    forall|i: int, j: int| 0 <= i < j < s.len() ==> #[trigger] s[i].version < #[trigger] s[j].version
}

/// Version `v` is carried by two distinct records of `s`.
pub open spec fn is_duplicated(s: Seq<Migration>, v: u64) -> bool {
    exists|i: int, j: int|
        0 <= i < j < s.len() && #[trigger] s[i].version == v && #[trigger] s[j].version == v
}

pub open spec fn has_duplicate_version(s: Seq<Migration>) -> bool {
    exists|i: int, j: int|
        0 <= i < j < s.len() && #[trigger] s[i].version == #[trigger] s[j].version
}

/// Some record of `s` with version `v` has no statements.
pub open spec fn is_empty_record(s: Seq<Migration>, v: u64) -> bool {
    exists|i: int| 0 <= i < s.len() && #[trigger] s[i].version == v && s[i].statements@.len() == 0
}

pub open spec fn has_empty_record(s: Seq<Migration>) -> bool {
    exists|i: int| 0 <= i < s.len() && (#[trigger] s[i]).statements@.len() == 0
}

/// `a` and `b` have equal length and each record of either occurs in the other.
/// Where versions are unique this makes one a reordering of the other.
pub open spec fn same_records(a: Seq<Migration>, b: Seq<Migration>) -> bool {
    &&& a.len() == b.len()
    &&& forall|i: int| 0 <= i < a.len() ==> b.contains(#[trigger] a[i])
    &&& forall|i: int| 0 <= i < b.len() ==> a.contains(#[trigger] b[i])
}

/// `x` occurs in `s` at a position no lower than `lo`.
pub open spec fn occurs_from(s: Seq<Migration>, lo: int, x: Migration) -> bool {
    exists|j: int| lo <= j < s.len() && s[j] == x
}

/// An immutable list of migrations, ordered by version, each with statements.
pub struct Catalog {
    entries: Vec<Migration>,
}

impl View for Catalog {
    type V = Seq<Migration>;

    closed spec fn view(&self) -> Seq<Migration> {
        self.entries@
    }
}

impl Catalog {
    pub open spec fn wf(&self) -> bool {
        ascending(self@) && !has_empty_record(self@)
    }

    /// Validates `entries` and orders them by version, whatever order they came in.
    pub fn load(entries: Vec<Migration>) -> (r: Result<Catalog, CatalogError>)
        ensures
            r is Ok <==> !has_duplicate_version(entries@) && !has_empty_record(entries@),
            r matches Ok(c) ==> c.wf() && same_records(entries@, c@),
            r matches Ok(c) ==> (ascending(entries@) ==> c@ == entries@),
            r matches Err(CatalogError::DuplicateVersion(v)) ==> is_duplicated(entries@, v),
            r matches Err(CatalogError::EmptyStatement(v)) ==> !has_duplicate_version(entries@)
                && is_empty_record(entries@, v),
            !(r matches Err(CatalogError::NonMonotonicCatalog)),
    {
        let ghost orig = entries@;
        let mut rest = entries;
        let mut out: Vec<Migration> = Vec::new();
        while rest.len() > 0
            invariant
                rest@.len() <= orig.len(),
                rest@ == orig.subrange(0, rest@.len() as int),
                out@.len() == orig.len() - rest@.len(),
                ascending(out@),
                forall|k: int| rest@.len() <= k < orig.len() ==> out@.contains(#[trigger] orig[k]),
                orig == entries@,
                forall|k: int| 0 <= k < out@.len() ==> occurs_from(orig, rest@.len() as int, #[trigger] out@[k]),
                !has_duplicate_version(orig.subrange(rest@.len() as int, orig.len() as int)),
                ascending(orig) ==> out@ == orig.subrange(rest@.len() as int, orig.len() as int),
            decreases rest.len(),
        {
            let ghost r = rest@.len() - 1;
            let m = rest.pop().unwrap();
            let ghost gm = m;
            assert(gm == orig[r]);
            let mut p: usize = 0;
            while p < out.len() && out[p].version < m.version
                invariant
                    p <= out@.len(),
                    forall|k: int| 0 <= k < p ==> (#[trigger] out@[k]).version < m.version,
                decreases out.len() - p,
            {
                p = p + 1;
            }
            if p < out.len() && out[p].version == m.version {
                let v = m.version;
                proof {
                    assert(occurs_from(orig, r + 1, out@[p as int]));
                    let j = choose|j: int| r + 1 <= j < orig.len() && orig[j] == out@[p as int];
                    assert(orig[r].version == v && orig[j].version == v);
                    assert(is_duplicated(orig, v));
                    assert(has_duplicate_version(orig));
                }
                return Err(CatalogError::DuplicateVersion(v));
            }
            proof {
                assert forall|k: int| p <= k < out@.len() implies (#[trigger] out@[k]).version
                    > gm.version by {
                    if k > p {
                        assert(out@[p as int].version < out@[k].version);
                    }
                }
                let sub = orig.subrange(r, orig.len() as int);
                let old_sub = orig.subrange(r + 1, orig.len() as int);
                assert forall|i: int, j: int| 0 <= i < j < sub.len() implies #[trigger] sub[i].version
                    != #[trigger] sub[j].version by {
                    if i == 0 {
                        assert(out@.contains(orig[r + j]));
                        let k = choose|k: int| 0 <= k < out@.len() && out@[k] == orig[r + j];
                        assert(out@[k].version != gm.version);
                    } else {
                        assert(old_sub[i - 1] == sub[i] && old_sub[j - 1] == sub[j]);
                    }
                }
                out@.insert_ensures(p as int, gm);
            }
            let ghost old_out = out@;
            out.insert(p, m);
            proof {
                if ascending(orig) {
                    if p > 0 {
                        assert(old_out[0] == orig[r + 1]);
                        assert(orig[r].version < orig[r + 1].version);
                    }
                    assert(out@ =~= orig.subrange(r, orig.len() as int));
                }
                assert forall|k: int| r <= k < orig.len() implies out@.contains(#[trigger] orig[k]) by {
                    if k == r {
                        assert(out@[p as int] == orig[k]);
                    } else {
                        let i = choose|i: int| 0 <= i < old_out.len() && old_out[i] == orig[k];
                        if i < p {
                            assert(out@[i] == orig[k]);
                        } else {
                            assert(out@[i + 1] == orig[k]);
                        }
                    }
                }
                assert forall|k: int| 0 <= k < out@.len() implies occurs_from(orig, r, #[trigger] out@[k]) by {
                    if k == p {
                        assert(orig[r] == out@[k]);
                    } else if k < p {
                        assert(old_out[k] == out@[k]);
                        assert(occurs_from(orig, r + 1, old_out[k]));
                    } else {
                        assert(old_out[k - 1] == out@[k]);
                        assert(occurs_from(orig, r + 1, old_out[k - 1]));
                    }
                }
            }
        }
        proof {
            assert(orig.subrange(0, orig.len() as int) =~= orig);
            assert forall|k: int| 0 <= k < out@.len() implies occurs_from(orig, 0, #[trigger] out@[k]) by {
                assert(occurs_from(orig, rest@.len() as int, out@[k]));
            }
        }
        let mut i: usize = 0;
        while i < out.len()
            invariant
                0 <= i <= out@.len(),
                forall|k: int| 0 <= k < i ==> (#[trigger] out@[k]).statements@.len() > 0,
                rest@.len() == 0,
                out@.len() == orig.len(),
                ascending(out@),
                forall|k: int| 0 <= k < orig.len() ==> out@.contains(#[trigger] orig[k]),
                orig == entries@,
                forall|k: int| 0 <= k < out@.len() ==> occurs_from(orig, 0, #[trigger] out@[k]),
                !has_duplicate_version(orig),
            decreases out.len() - i,
        {
            if out[i].statements.len() == 0 {
                let v = out[i].version;
                proof {
                    assert(occurs_from(orig, 0, out@[i as int]));
                    let j = choose|j: int| 0 <= j < orig.len() && orig[j] == out@[i as int];
                    assert(orig[j].version == v);
                    assert(is_empty_record(orig, v));
                    assert(has_empty_record(orig));
                }
                return Err(CatalogError::EmptyStatement(v));
            }
            i = i + 1;
        }
        proof {
            assert forall|k: int| 0 <= k < orig.len() implies (#[trigger] orig[k]).statements@.len()
                > 0 by {
                let j = choose|j: int| 0 <= j < out@.len() && out@[j] == orig[k];
            }
        }
        Ok(Catalog { entries: out })
    }

    /// Number of migrations in the catalog.
    pub fn len(&self) -> (r: usize)
        ensures
            r == self@.len(),
    {
        self.entries.len()
    }

    /// The migration at position `i` in version order.
    pub fn get(&self, i: usize) -> (r: &Migration)
        requires
            i < self@.len(),
        ensures
            *r == self@[i as int],
    {
        &self.entries[i]
    }

    /// Position of the migration with version `v`, if the catalog has one.
    pub fn position_of(&self, v: u64) -> (r: Option<usize>)
        ensures
            match r {
                Some(i) => i < self@.len() && self@[i as int].version == v,
                None => forall|i: int| 0 <= i < self@.len() ==> (#[trigger] self@[i]).version != v,
            },
    {
        let mut i: usize = 0;
        while i < self.entries.len()
            invariant
                i <= self@.len(),
                self@ == self.entries@,
                forall|k: int| 0 <= k < i ==> (#[trigger] self@[k]).version != v,
            decreases self.entries.len() - i,
        {
            if self.entries[i].version == v {
                return Some(i);
            }
            i = i + 1;
        }
        None
    }
}

} // verus!
