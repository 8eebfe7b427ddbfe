//! Consistency checks on a rule set before any filesystem mutation: every
//! source must be renamed at most once, and no two rules may share a
//! destination.

use vstd::prelude::*;
use crate::rules::{Rename, RenameV, rules_view};

verus! {

/// Why a rule set was rejected: a path is the source of two rules, or the
/// destination of two rules. The offending path is carried for reporting.
#[derive(Debug)]
pub enum ValidationError {
    DuplicateSource { path: String },
    DuplicateDest { path: String },
}

/// No two rules share a source path.
pub open spec fn distinct_sources(rs: Seq<RenameV>) -> bool {
    forall|i: int, j: int| 0 <= i < j < rs.len() ==> rs[i].source != rs[j].source
}

/// No two rules share a destination path.
pub open spec fn distinct_dests(rs: Seq<RenameV>) -> bool {
    forall|i: int, j: int| 0 <= i < j < rs.len() ==> rs[i].dest != rs[j].dest
}

/// Reject a rule set with a duplicated source (reported first) or a
/// duplicated destination; accept exactly the internally consistent sets.
pub fn validate(rules: &Vec<Rename>) -> (r: Result<(), ValidationError>)
    ensures
        r is Ok <==> distinct_sources(rules_view(rules@)) && distinct_dests(rules_view(rules@)),
        match r {
            Ok(()) => true,
            Err(ValidationError::DuplicateSource { path }) => !distinct_sources(rules_view(rules@))
                && exists|i: int, j: int|
                    0 <= i < j < rules@.len() && rules@[i].source@ == path@ && rules@[j].source@
                        == path@,
            Err(ValidationError::DuplicateDest { path }) => distinct_sources(rules_view(rules@))
                && !distinct_dests(rules_view(rules@)) && exists|i: int, j: int|
                    0 <= i < j < rules@.len() && rules@[i].dest@ == path@ && rules@[j].dest@
                        == path@,
        },
{
    let ghost rv = rules_view(rules@);
    let n = rules.len();
    let mut j: usize = 0;
    while j < n
        invariant
            j <= n,
            n == rules@.len(),
            rv == rules_view(rules@),
            forall|x: int, y: int| 0 <= x < y < j ==> rv[x].source != rv[y].source,
        decreases n - j,
    {
        let mut i: usize = 0;
        while i < j
            invariant
                i <= j < n,
                n == rules@.len(),
                rv == rules_view(rules@),
                forall|x: int| 0 <= x < i ==> rv[x].source != rv[j as int].source,
            decreases j - i,
        {
            if rules[i].source == rules[j].source {
                let path = rules[j].source.clone();
                proof {
                    let ii = i as int;
                    let jj = j as int;
                    assert(rv[ii].source == rv[jj].source);
                    assert(!distinct_sources(rv));
                    assert(0 <= ii < jj < rules@.len() && rules@[ii].source@ == path@
                        && rules@[jj].source@ == path@);
                }
                return Err(ValidationError::DuplicateSource { path });
            }
            i = i + 1;
        }
        j = j + 1;
    }
    let mut j: usize = 0;
    while j < n
        invariant
            j <= n,
            n == rules@.len(),
            rv == rules_view(rules@),
            distinct_sources(rv),
            forall|x: int, y: int| 0 <= x < y < j ==> rv[x].dest != rv[y].dest,
        decreases n - j,
    {
        let mut i: usize = 0;
        while i < j
            invariant
                i <= j < n,
                n == rules@.len(),
                rv == rules_view(rules@),
                distinct_sources(rv),
                forall|x: int| 0 <= x < i ==> rv[x].dest != rv[j as int].dest,
            decreases j - i,
        {
            if rules[i].dest == rules[j].dest {
                let path = rules[j].dest.clone();
                proof {
                    let ii = i as int;
                    let jj = j as int;
                    assert(rv[ii].dest == rv[jj].dest);
                    assert(!distinct_dests(rv));
                    assert(0 <= ii < jj < rules@.len() && rules@[ii].dest@ == path@
                        && rules@[jj].dest@ == path@);
                }
                return Err(ValidationError::DuplicateDest { path });
            }
            i = i + 1;
        }
        j = j + 1;
    }
    Ok(())
}

} // verus!
