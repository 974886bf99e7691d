use vstd::prelude::*;
use vstd::string::StrSliceExecFns;

use crate::catalog::{Catalog, Migration, ascending};

verus! {

/// A row of the store's bookkeeping table: a version that was applied and the
/// description it was applied under.
pub struct AppliedRow {
    pub version: u64,
    pub description: String,
}

/// The catalog knows version `row.version`, under a description other than the
/// one the store recorded.
pub open spec fn is_drifted(cat: Seq<Migration>, row: AppliedRow) -> bool {
    exists|j: int|
        0 <= j < cat.len() && #[trigger] cat[j].version == row.version && cat[j].description@
            != row.description@
}

/// Versions of the first `n` rows that drifted, in row order.
pub open spec fn drifted_upto(cat: Seq<Migration>, rows: Seq<AppliedRow>, n: int) -> Seq<u64>
    decreases n,
{
    if n <= 0 {
        Seq::empty()
    } else {
        let d = drifted_upto(cat, rows, n - 1);
        if is_drifted(cat, rows[n - 1]) {
            d.push(rows[n - 1].version)
        } else {
            d
        }
    }
}

fn same_text(a: &str, b: &str) -> (r: bool)
    ensures
        r == (a@ == b@),
{
    let n = a.unicode_len();
    if n != b.unicode_len() {
        return false;
    }
    let mut i: usize = 0;
    while i < n
        invariant
            i <= n,
            n == a@.len(),
            n == b@.len(),
            forall|k: int| 0 <= k < i ==> a@[k] == b@[k],
        decreases n - i,
    {
        if a.get_char(i) != b.get_char(i) {
            return false;
        }
        i = i + 1;
    }
    assert(a@ =~= b@);
    true
}

/// Versions whose stored description differs from the catalog's, in row order.
/// Versions are the identity of a migration, so this is a warning about edited
/// migrations, never a reason to stop a run.
pub fn drifted_versions(catalog: &Catalog, rows: &Vec<AppliedRow>) -> (r: Vec<u64>)
    requires
        ascending(catalog@),
    ensures
        r@ == drifted_upto(catalog@, rows@, rows@.len() as int),
{
    let mut out: Vec<u64> = Vec::new();
    let mut i: usize = 0;
    while i < rows.len()
        invariant
            i <= rows@.len(),
            ascending(catalog@),
            out@ == drifted_upto(catalog@, rows@, i as int),
        decreases rows.len() - i,
    {
        let row = &rows[i];
        match catalog.position_of(row.version) {
            Some(j) => {
                let known = &catalog.get(j).description;
                if !same_text(known.as_str(), row.description.as_str()) {
                    out.push(row.version);
                } else {
                    assert(!is_drifted(catalog@, rows@[i as int])) by {
                        if is_drifted(catalog@, rows@[i as int]) {
                            let k = choose|k: int|
                                0 <= k < catalog@.len() && #[trigger] catalog@[k].version
                                    == row.version && catalog@[k].description@
                                    != row.description@;
                            if k < j {
                                assert(catalog@[k].version < catalog@[j as int].version);
                            } else if k > j {
                                assert(catalog@[j as int].version < catalog@[k].version);
                            }
                        }
                    }
                }
            },
            None => {},
        }
        i = i + 1;
    }
    out
}

} // verus!
