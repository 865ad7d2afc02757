//! Manifests: the dependency constraints declared by a project or by one
//! package version, split into normal and test dependencies.

use vstd::prelude::*;

use crate::constraint::Constraint;
use crate::pkg::Pkg;
use crate::version::Version;

verus! {

/// One declared dependency: a package and the constraint on its version.
pub struct Dep {
    pub pkg: Pkg,
    pub constraint: Constraint,
}

impl Dep {
    pub open spec fn wf(self) -> bool {
        self.constraint.wf()
    }

    pub fn new(pkg: Pkg, constraint: Constraint) -> (r: Dep)
        ensures
            r.pkg@ == pkg@,
            r.constraint@ == constraint@,
    {
        Dep { pkg, constraint }
    }

    pub fn duplicate(&self) -> (r: Dep)
        ensures
            r.pkg@ == self.pkg@,
            r.constraint@ == self.constraint@,
    {
        Dep { pkg: self.pkg.duplicate(), constraint: self.constraint.duplicate() }
    }
}

/// The dependency sets declared by a project or by one package version.
pub struct Manifest {
    pub deps: Vec<Dep>,
    pub test_deps: Vec<Dep>,
}

/// All constraints in the list are in canonical form.
pub open spec fn deps_wf(rs: Seq<Dep>) -> bool {
    forall|i: int| 0 <= i < rs.len() ==> (#[trigger] rs[i]).constraint.wf()
}

/// No package appears twice in the list.
pub open spec fn unique_deps(rs: Seq<Dep>) -> bool {
    forall|i: int, j: int| 0 <= i < j < rs.len() ==> rs[i].pkg@ != rs[j].pkg@
}

/// Some entry of the list names `p`.
pub open spec fn reqs_require(rs: Seq<Dep>, p: Seq<char>) -> bool {
    exists|i: int| 0 <= i < rs.len() && (#[trigger] rs[i]).pkg@ == p
}

/// Every entry of the list naming `p` accepts `v`.
pub open spec fn reqs_allow(rs: Seq<Dep>, p: Seq<char>, v: Version) -> bool {
    forall|i: int|
        0 <= i < rs.len() && (#[trigger] rs[i]).pkg@ == p ==> rs[i].constraint.spec_allows(v)
}

/// How one more entry changes what a prefix of the list requires and allows.
proof fn lemma_reqs_step(rs: Seq<Dep>, k: int, p: Seq<char>, v: Version)
    requires
        0 <= k < rs.len(),
    ensures
        reqs_require(rs.take(k + 1), p) == (reqs_require(rs.take(k), p) || rs[k].pkg@ == p),
        reqs_allow(rs.take(k + 1), p, v) == (reqs_allow(rs.take(k), p, v) && (rs[k].pkg@ == p
            ==> rs[k].constraint.spec_allows(v))),
{
    assert(rs.take(k + 1).len() == k + 1);
    assert(forall|i: int| 0 <= i < k + 1 ==> rs.take(k + 1)[i] == rs[i]);
    assert(forall|i: int| 0 <= i < k ==> rs.take(k)[i] == rs[i]);
    if reqs_require(rs.take(k + 1), p) {
        let i = choose|i: int| 0 <= i < k + 1 && (#[trigger] rs.take(k + 1)[i]).pkg@ == p;
        if i < k {
            assert(rs.take(k)[i].pkg@ == p);
            assert(reqs_require(rs.take(k), p));
        }
    }
    if reqs_require(rs.take(k), p) {
        let i = choose|i: int| 0 <= i < k && (#[trigger] rs.take(k)[i]).pkg@ == p;
        assert(rs.take(k + 1)[i].pkg@ == p);
        assert(reqs_require(rs.take(k + 1), p));
    }
    if rs[k].pkg@ == p {
        assert(rs.take(k + 1)[k].pkg@ == p);
        assert(reqs_require(rs.take(k + 1), p));
    }
    if reqs_allow(rs.take(k + 1), p, v) {
        assert forall|i: int|
            0 <= i < k && (#[trigger] rs.take(k)[i]).pkg@ == p implies rs.take(
            k,
        )[i].constraint.spec_allows(v) by {
            assert(rs.take(k + 1)[i].pkg@ == p);
        }
        if rs[k].pkg@ == p {
            assert(rs.take(k + 1)[k].pkg@ == p);
        }
    }
    if reqs_allow(rs.take(k), p, v) && (rs[k].pkg@ == p ==> rs[k].constraint.spec_allows(v)) {
        assert forall|i: int|
            0 <= i < k + 1 && (#[trigger] rs.take(k + 1)[i]).pkg@ == p implies rs.take(
            k + 1,
        )[i].constraint.spec_allows(v) by {
            if i < k {
                assert(rs.take(k)[i].pkg@ == p);
            }
        }
    }
}

/// Merges one dependency into a unique-keyed requirement list: an existing
/// entry for the same package is tightened by intersection, a new package
/// is appended.
pub fn merge_dep(acc: &mut Vec<Dep>, d: &Dep)
    requires
        unique_deps(old(acc)@),
        deps_wf(old(acc)@),
        d.constraint.wf(),
    ensures
        unique_deps(final(acc)@),
        deps_wf(final(acc)@),
        forall|p: Seq<char>|
            #[trigger] reqs_require(final(acc)@, p) == (reqs_require(old(acc)@, p) || p
                == d.pkg@),
        forall|p: Seq<char>, v: Version|
            #[trigger] reqs_allow(final(acc)@, p, v) == (reqs_allow(old(acc)@, p, v) && (p
                == d.pkg@ ==> d.constraint.spec_allows(v))),
{
    let n = acc.len();
    let mut k: usize = 0;
    while k < n
        invariant
            0 <= k <= n,
            n == acc@.len(),
            acc@ == old(acc)@,
            unique_deps(acc@),
            deps_wf(acc@),
            d.constraint.wf(),
            forall|i: int| 0 <= i < k ==> (#[trigger] acc@[i]).pkg@ != d.pkg@,
        decreases n - k,
    {
        if acc[k].pkg.is_same(&d.pkg) {
            let tightened = acc[k].constraint.intersect(&d.constraint);
            let entry = Dep { pkg: d.pkg.duplicate(), constraint: tightened };
            let ghost pre = acc@;
            let ghost kk = k as int;
            acc.set(k, entry);
            proof {
                assert(acc@ == pre.update(kk, entry));
                assert(forall|i: int| 0 <= i < pre.len() && i != kk ==> acc@[i] == pre[i]);
                assert(acc@[kk].pkg@ == d.pkg@);
                assert forall|p: Seq<char>| #[trigger] reqs_require(acc@, p) == (reqs_require(
                    pre,
                    p,
                ) || p == d.pkg@) by {
                    if reqs_require(acc@, p) {
                        let i = choose|i: int|
                            0 <= i < acc@.len() && (#[trigger] acc@[i]).pkg@ == p;
                        if i != kk {
                            assert(pre[i].pkg@ == p);
                        }
                    }
                    if reqs_require(pre, p) {
                        let i = choose|i: int| 0 <= i < pre.len() && (#[trigger] pre[i]).pkg@ == p;
                        if i != kk {
                            assert(acc@[i].pkg@ == p);
                        } else {
                            assert(acc@[kk].pkg@ == p);
                        }
                        assert(reqs_require(acc@, p));
                    }
                    if p == d.pkg@ {
                        assert(acc@[kk].pkg@ == p);
                        assert(reqs_require(acc@, p));
                    }
                }
                assert forall|p: Seq<char>, v: Version| #[trigger] reqs_allow(acc@, p, v) == (
                reqs_allow(pre, p, v) && (p == d.pkg@ ==> d.constraint.spec_allows(v))) by {
                    // Entries other than `kk` are unchanged; entry `kk` now
                    // allows exactly what the old entry and `d` both allow.
                    if p == d.pkg@ {
                        // By uniqueness, `kk` is the only entry naming `p`.
                        assert(forall|i: int|
                            0 <= i < pre.len() && (#[trigger] pre[i]).pkg@ == p ==> i == kk);
                        if reqs_allow(acc@, p, v) {
                            assert(acc@[kk].pkg@ == p);
                            assert(acc@[kk].constraint.spec_allows(v));
                            assert(pre[kk].constraint.spec_allows(v)
                                && d.constraint.spec_allows(v));
                            assert forall|i: int|
                                0 <= i < pre.len() && (#[trigger] pre[i]).pkg@
                                    == p implies pre[i].constraint.spec_allows(v) by {
                                assert(i == kk);
                            }
                        }
                        if reqs_allow(pre, p, v) && d.constraint.spec_allows(v) {
                            assert(pre[kk].pkg@ == p);
                            assert(pre[kk].constraint.spec_allows(v));
                            assert forall|i: int|
                                0 <= i < acc@.len() && (#[trigger] acc@[i]).pkg@
                                    == p implies acc@[i].constraint.spec_allows(v) by {
                                if i != kk {
                                    assert(pre[i].pkg@ == p);
                                    assert(i == kk);
                                }
                            }
                        }
                    } else {
                        if reqs_allow(acc@, p, v) {
                            assert forall|i: int|
                                0 <= i < pre.len() && (#[trigger] pre[i]).pkg@
                                    == p implies pre[i].constraint.spec_allows(v) by {
                                assert(i != kk);
                                assert(acc@[i].pkg@ == p);
                                assert(acc@[i].constraint.spec_allows(v));
                            }
                        }
                        if reqs_allow(pre, p, v) {
                            assert forall|i: int|
                                0 <= i < acc@.len() && (#[trigger] acc@[i]).pkg@
                                    == p implies acc@[i].constraint.spec_allows(v) by {
                                assert(i != kk);
                                assert(pre[i].pkg@ == p);
                            }
                        }
                    }
                }
                assert forall|i: int, j: int|
                    0 <= i < j < acc@.len() implies acc@[i].pkg@ != acc@[j].pkg@ by {
                    if i != kk && j != kk {
                        assert(pre[i].pkg@ != pre[j].pkg@);
                    } else if i == kk {
                        assert(pre[j].pkg@ != pre[kk].pkg@);
                    } else {
                        assert(pre[i].pkg@ != pre[kk].pkg@);
                    }
                }
            }
            return ;
        }
        k = k + 1;
    }
    let ghost pre = acc@;
    acc.push(Dep { pkg: d.pkg.duplicate(), constraint: d.constraint.duplicate() });
    proof {
        assert(acc@.len() == pre.len() + 1);
        assert(forall|i: int| 0 <= i < pre.len() ==> acc@[i] == pre[i]);
        assert(acc@[pre.len() as int].pkg@ == d.pkg@);
        assert forall|p: Seq<char>| #[trigger] reqs_require(acc@, p) == (reqs_require(pre, p) || p
            == d.pkg@) by {
            if reqs_require(acc@, p) {
                let i = choose|i: int| 0 <= i < acc@.len() && (#[trigger] acc@[i]).pkg@ == p;
                if i < pre.len() {
                    assert(pre[i].pkg@ == p);
                }
            }
            if reqs_require(pre, p) {
                let i = choose|i: int| 0 <= i < pre.len() && (#[trigger] pre[i]).pkg@ == p;
                assert(acc@[i].pkg@ == p);
                assert(reqs_require(acc@, p));
            }
            if p == d.pkg@ {
                assert(acc@[pre.len() as int].pkg@ == p);
                assert(reqs_require(acc@, p));
            }
        }
        assert forall|p: Seq<char>, v: Version| #[trigger] reqs_allow(acc@, p, v) == (reqs_allow(
            pre,
            p,
            v,
        ) && (p == d.pkg@ ==> d.constraint.spec_allows(v))) by {
            // No old entry names `d.pkg`, so the new entry is the only one.
            if reqs_allow(acc@, p, v) {
                assert forall|i: int|
                    0 <= i < pre.len() && (#[trigger] pre[i]).pkg@
                        == p implies pre[i].constraint.spec_allows(v) by {
                    assert(acc@[i].pkg@ == p);
                }
                if p == d.pkg@ {
                    assert(acc@[pre.len() as int].pkg@ == p);
                }
            }
            if reqs_allow(pre, p, v) && (p == d.pkg@ ==> d.constraint.spec_allows(v)) {
                assert forall|i: int|
                    0 <= i < acc@.len() && (#[trigger] acc@[i]).pkg@
                        == p implies acc@[i].constraint.spec_allows(v) by {
                    if i < pre.len() {
                        assert(pre[i].pkg@ == p);
                    } else {
                        assert(acc@[i].pkg@ == d.pkg@);
                    }
                }
            }
        }
        assert forall|i: int, j: int|
            0 <= i < j < acc@.len() implies acc@[i].pkg@ != acc@[j].pkg@ by {
            if j < pre.len() {
                assert(pre[i].pkg@ != pre[j].pkg@);
            } else {
                assert(acc@[i].pkg@ != d.pkg@);
            }
        }
    }
}

/// The conjunction of every constraint the project, the test set (when
/// requested), and the caller's additional constraints place on `p`.
pub open spec fn spec_effective_allows(
    project: Manifest,
    use_test: bool,
    add: Seq<Dep>,
    p: Seq<char>,
    v: Version,
) -> bool {
    &&& reqs_allow(project.deps@, p, v)
    &&& (use_test ==> reqs_allow(project.test_deps@, p, v))
    &&& reqs_allow(add, p, v)
}

/// Whether `p` is required at the root at all.
pub open spec fn spec_required(
    project: Manifest,
    use_test: bool,
    add: Seq<Dep>,
    p: Seq<char>,
) -> bool {
    ||| reqs_require(project.deps@, p)
    ||| (use_test && reqs_require(project.test_deps@, p))
    ||| reqs_require(add, p)
}

/// Folds one dependency list into the accumulated requirement list.
fn merge_all(acc: &mut Vec<Dep>, list: &Vec<Dep>)
    requires
        unique_deps(old(acc)@),
        deps_wf(old(acc)@),
        deps_wf(list@),
    ensures
        unique_deps(final(acc)@),
        deps_wf(final(acc)@),
        forall|p: Seq<char>|
            #[trigger] reqs_require(final(acc)@, p) == (reqs_require(old(acc)@, p)
                || reqs_require(list@, p)),
        forall|p: Seq<char>, v: Version|
            #[trigger] reqs_allow(final(acc)@, p, v) == (reqs_allow(old(acc)@, p, v)
                && reqs_allow(list@, p, v)),
{
    let n = list.len();
    let mut k: usize = 0;
    while k < n
        invariant
            0 <= k <= n,
            n == list@.len(),
            unique_deps(acc@),
            deps_wf(acc@),
            deps_wf(list@),
            forall|p: Seq<char>|
                #[trigger] reqs_require(acc@, p) == (reqs_require(old(acc)@, p) || reqs_require(
                    list@.take(k as int),
                    p,
                )),
            forall|p: Seq<char>, v: Version|
                #[trigger] reqs_allow(acc@, p, v) == (reqs_allow(old(acc)@, p, v) && reqs_allow(
                    list@.take(k as int),
                    p,
                    v,
                )),
        decreases n - k,
    {
        let d = list[k].duplicate();
        proof {
            assert(d.constraint.wf()) by {
                assert(list@[k as int].constraint.wf());
            }
        }
        merge_dep(acc, &d);
        proof {
            assert(d.pkg@ == list@[k as int].pkg@);
            assert(d.constraint@ == list@[k as int].constraint@);
            assert forall|p: Seq<char>| #[trigger] reqs_require(acc@, p) == (reqs_require(
                old(acc)@,
                p,
            ) || reqs_require(list@.take(k + 1), p)) by {
                lemma_reqs_step(list@, k as int, p, Version { major: 0, minor: 0, patch: 0 });
            }
            assert forall|p: Seq<char>, v: Version| #[trigger] reqs_allow(acc@, p, v) == (
            reqs_allow(old(acc)@, p, v) && reqs_allow(list@.take(k + 1), p, v)) by {
                lemma_reqs_step(list@, k as int, p, v);
            }
        }
        k = k + 1;
    }
    proof {
        assert(list@.take(n as int) =~= list@);
    }
}

/// Seeds the root requirements: the project's dependencies, its test
/// dependencies when requested, and every caller-injected constraint, one
/// unique entry per package, each the intersection of everything declared
/// for that package.
pub fn effective_roots(project: &Manifest, use_test: bool, additional: &Vec<Dep>) -> (r: Vec<Dep>)
    requires
        deps_wf(project.deps@),
        deps_wf(project.test_deps@),
        deps_wf(additional@),
    ensures
        unique_deps(r@),
        deps_wf(r@),
        forall|p: Seq<char>|
            #[trigger] reqs_require(r@, p) == spec_required(*project, use_test, additional@, p),
        forall|p: Seq<char>, v: Version|
            #[trigger] reqs_allow(r@, p, v) == spec_effective_allows(
                *project,
                use_test,
                additional@,
                p,
                v,
            ),
{
    let mut acc: Vec<Dep> = Vec::new();
    merge_all(&mut acc, &project.deps);
    if use_test {
        merge_all(&mut acc, &project.test_deps);
    }
    merge_all(&mut acc, additional);
    acc
}

impl Manifest {
    /// A manifest with no dependencies at all.
    pub fn new_empty() -> (r: Manifest)
        ensures
            r.deps@.len() == 0,
            r.test_deps@.len() == 0,
    {
        Manifest { deps: Vec::new(), test_deps: Vec::new() }
    }

    /// Rebuilds every constraint through the canonical constructors, so
    /// that all downstream code works on canonical values whatever the
    /// provenance of this manifest. The accepted version sets are kept
    /// exactly.
    pub fn sanitized(&self) -> (r: Manifest)
        ensures
            deps_wf(r.deps@),
            deps_wf(r.test_deps@),
            r.deps@.len() == self.deps@.len(),
            r.test_deps@.len() == self.test_deps@.len(),
            forall|i: int|
                0 <= i < self.deps@.len() ==> (#[trigger] r.deps@[i]).pkg@ == self.deps@[i].pkg@
                    && (forall|v: Version|
                    r.deps@[i].constraint.spec_allows(v)
                        == self.deps@[i].constraint.spec_allows(v)),
            forall|i: int|
                0 <= i < self.test_deps@.len() ==> (#[trigger] r.test_deps@[i]).pkg@
                    == self.test_deps@[i].pkg@ && (forall|v: Version|
                    r.test_deps@[i].constraint.spec_allows(v)
                        == self.test_deps@[i].constraint.spec_allows(v)),
    {
        Manifest { deps: sanitize_deps(&self.deps), test_deps: sanitize_deps(&self.test_deps) }
    }
}

/// Rebuilds each constraint of the list in canonical form, keeping its
/// accepted version set.
pub fn sanitize_deps(list: &Vec<Dep>) -> (r: Vec<Dep>)
    ensures
        deps_wf(r@),
        r@.len() == list@.len(),
        forall|i: int|
            0 <= i < list@.len() ==> (#[trigger] r@[i]).pkg@ == list@[i].pkg@ && (forall|
                v: Version,
            | r@[i].constraint.spec_allows(v) == list@[i].constraint.spec_allows(v)),
{
    let n = list.len();
    let mut out: Vec<Dep> = Vec::new();
    let mut k: usize = 0;
    while k < n
        invariant
            0 <= k <= n,
            n == list@.len(),
            out@.len() == k,
            deps_wf(out@),
            forall|i: int|
                0 <= i < k ==> (#[trigger] out@[i]).pkg@ == list@[i].pkg@ && (forall|v: Version|
                    out@[i].constraint.spec_allows(v) == list@[i].constraint.spec_allows(v)),
        decreases n - k,
    {
        let c = list[k].constraint.canonical();
        out.push(Dep { pkg: list[k].pkg.duplicate(), constraint: c });
        k = k + 1;
    }
    out
}

} // verus!
