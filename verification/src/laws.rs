//! Laws relating whole solves, proved once and for all.

use vstd::prelude::*;

use crate::manifest::Dep;
use crate::manifest::Manifest;
use crate::manifest::reqs_allow;
use crate::manifest::reqs_require;
use crate::manifest::spec_effective_allows;
use crate::manifest::spec_required;
use crate::solver::Fetched;
use crate::solver::Pick;
use crate::solver::sol_has;
use crate::solver::spec_solution_sound;
use crate::version::Version;

verus! {

/// Monotonic tightening: take any sound solution obtained under additional
/// constraints `add2` that are at least as strict, package for package, as
/// some earlier constraints `add1`. Then the version this solution picks
/// for any required package also satisfies the earlier, looser effective
/// constraint: tightening the injected constraints can narrow or eliminate
/// solutions, but never introduces a version the earlier constraints
/// forbade.
pub proof fn lemma_monotonic_tightening(
    project: Manifest,
    use_test: bool,
    add1: Seq<Dep>,
    add2: Seq<Dep>,
    roots2: Seq<Dep>,
    ms2: Seq<Fetched>,
    es2: Seq<Pick>,
    p: Seq<char>,
    v: Version,
)
    requires
        spec_solution_sound(roots2, ms2, es2),
        forall|q: Seq<char>, w: Version|
            #[trigger] reqs_allow(roots2, q, w) == spec_effective_allows(
                project,
                use_test,
                add2,
                q,
                w,
            ),
        forall|q: Seq<char>|
            #[trigger] reqs_require(roots2, q) == spec_required(project, use_test, add2, q),
        forall|q: Seq<char>, w: Version|
            #[trigger] reqs_allow(add2, q, w) ==> reqs_allow(add1, q, w),
        sol_has(es2, p, v),
        spec_required(project, use_test, add2, p),
    ensures
        spec_effective_allows(project, use_test, add1, p, v),
{
    let k = choose|k: int|
        0 <= k < es2.len() && (#[trigger] es2[k]).pkg@ == p && es2[k].version == v;
    assert forall|i: int|
        0 <= i < roots2.len() && (#[trigger] roots2[i]).pkg@
            == p implies roots2[i].constraint.spec_allows(v) by {
        // The assignment meets this root requirement through some entry,
        // and uniqueness makes that entry the one picking `v`.
        assert(crate::solver::dep_met(es2, roots2[i]));
        let k2 = choose|k2: int|
            0 <= k2 < es2.len() && (#[trigger] es2[k2]).pkg@ == roots2[i].pkg@
                && roots2[i].constraint.spec_allows(es2[k2].version);
        if k < k2 {
            assert(es2[k].pkg@ != es2[k2].pkg@);
        } else if k2 < k {
            assert(es2[k2].pkg@ != es2[k].pkg@);
        }
        assert(k == k2);
    }
    assert(reqs_allow(roots2, p, v));
    assert(spec_effective_allows(project, use_test, add2, p, v));
    assert(reqs_allow(add2, p, v));
}

} // verus!
