//! The resolution engine: seeds root requirements, asks the metadata
//! provider for candidate versions and manifests on demand, tightens
//! requirements by intersection, backtracks on conflict, and returns either
//! a checked solution or a structured failure.

use vstd::prelude::*;

use crate::constraint::Constraint;
use crate::ctext::fmt_hyp;
use crate::ctext::parse_constraint;
use crate::ctext::spec_fmt_ranges;
use crate::manifest::Dep;
use crate::manifest::Manifest;
use crate::manifest::deps_wf;
use crate::manifest::effective_roots;
use crate::manifest::merge_dep;
use crate::manifest::reqs_allow;
use crate::manifest::reqs_require;
use crate::manifest::spec_effective_allows;
use crate::manifest::spec_required;
use crate::manifest::unique_deps;
use crate::pkg::Pkg;
use crate::pkg::valid_pkg;
use crate::version::Version;
use crate::version::spec_fmt_version;

verus! {

/// Why a provider call failed: an ordinary failure, or a cooperative
/// cancellation requested through the provider.
pub enum ProviderError {
    Failed(String),
    Cancelled(String),
}

/// The capability interface the engine pulls metadata through. Callers
/// implement it over whatever storage or transport they have.
pub trait Provider {
    /// Available versions of `pkg`, most preferred first.
    fn list_versions(&mut self, pkg: &Pkg) -> Result<Vec<Version>, ProviderError>;

    /// The manifest declared by `pkg` at `version`.
    fn fetch_manifest(&mut self, pkg: &Pkg, version: &Version) -> Result<Manifest, ProviderError>;
}

/// The candidate-version list that the provider returned for one package,
/// most preferred first.
pub struct Offered {
    pub pkg: Pkg,
    pub versions: Vec<Version>,
}

/// One resolved package.
pub struct Pick {
    pub pkg: Pkg,
    pub version: Version,
}

/// The manifest that was fetched for one package version: the evidence a
/// solution is checked against.
pub struct Fetched {
    pub pkg: Pkg,
    pub version: Version,
    pub manifest: Manifest,
}

/// A successful resolution: one version per required package, together
/// with the root requirements it was solved for and the fetched manifests
/// that justify it.
pub struct Solution {
    pub roots: Vec<Dep>,
    pub entries: Vec<Pick>,
    pub manifests: Vec<Fetched>,
    pub offers: Vec<Offered>,
}

/// The terminal outcomes of a solve that found no solution.
#[derive(Debug)]
pub enum SolveError {
    /// A constraint or package string failed to parse.
    ConstraintParse { package: String, text: String },
    /// The provider could not list versions of `pkg`.
    VersionList { pkg: Pkg, message: String },
    /// The provider could not fetch the manifest of `pkg` at `version`.
    Fetch { pkg: Pkg, version: Version, message: String },
    /// The constraint space is unsatisfiable; the report explains why.
    NoSolution { report: String },
    /// A package version declares a dependency no version can satisfy.
    ImpossibleDependency { dependent: Pkg, version: Version, dependency: Pkg },
    /// A package version lists itself among its own dependencies.
    SelfDependency { pkg: Pkg, version: Version },
    /// The provider asked for the solve to stop.
    Cancelled { message: String },
    /// An internal invariant failed; never expected on any input.
    Internal { message: String },
}


/// The rendered message of each outcome: every variant's payload appears,
/// none is dropped or collapsed.
pub open spec fn spec_describe(e: SolveError) -> Seq<char> {
    match e {
        SolveError::ConstraintParse { package, text } => "failed to parse the constraint of "@
            + package@ + ": "@ + text@,
        SolveError::VersionList { pkg, message } =>
        "There was an error while picking packages for dependency resolution:\n\n"@ + message@
            + " ("@ + pkg@ + ")"@,
        SolveError::Fetch { pkg, version, message } =>
        "An error occured while trying to retrieve dependencies of "@ + pkg@ + "@"@
            + spec_fmt_version(version) + ":\n\n"@ + message@,
        SolveError::NoSolution { report } => report@,
        SolveError::ImpossibleDependency { dependent, version, dependency } => dependent@ + "@"@
            + spec_fmt_version(version) + " has an impossible dependency on "@ + dependency@,
        SolveError::SelfDependency { pkg, version } => pkg@ + "@"@ + spec_fmt_version(version)
            + " somehow depends on itself"@,
        SolveError::Cancelled { message } => "Dependency resolution was cancelled.\n\n"@
            + message@,
        SolveError::Internal { message } =>
        "An unrecoverable error happened while solving dependencies:\n\n"@ + message@,
    }
}

impl SolveError {
    /// Renders this outcome as one human-readable message: exactly the
    /// text `spec_describe` fixes for the variant.
    pub fn describe(&self) -> (r: String)
        ensures
            r@ == spec_describe(*self),
    {
        let mut out = String::new();
        match self {
            SolveError::ConstraintParse { package, text } => {
                out.append("failed to parse the constraint of ");
                out.append(package.as_str());
                out.append(": ");
                out.append(text.as_str());
                proof {
                    assert(out@ =~= spec_describe(*self));
                }
            },
            SolveError::VersionList { pkg, message } => {
                out.append("There was an error while picking packages for dependency resolution:\n\n");
                out.append(message.as_str());
                out.append(" (");
                out.append(pkg.as_text());
                out.append(")");
                proof {
                    assert(out@ =~= spec_describe(*self));
                }
            },
            SolveError::Fetch { pkg, version, message } => {
                out.append("An error occured while trying to retrieve dependencies of ");
                out.append(pkg.as_text());
                out.append("@");
                let vt = version.to_text();
                out.append(vt.as_str());
                out.append(":\n\n");
                out.append(message.as_str());
                proof {
                    assert(out@ =~= spec_describe(*self));
                }
            },
            SolveError::NoSolution { report } => {
                out.append(report.as_str());
                proof {
                    assert(out@ =~= spec_describe(*self));
                }
            },
            SolveError::ImpossibleDependency { dependent, version, dependency } => {
                out.append(dependent.as_text());
                out.append("@");
                let vt = version.to_text();
                out.append(vt.as_str());
                out.append(" has an impossible dependency on ");
                out.append(dependency.as_text());
                proof {
                    assert(out@ =~= spec_describe(*self));
                }
            },
            SolveError::SelfDependency { pkg, version } => {
                out.append(pkg.as_text());
                out.append("@");
                let vt = version.to_text();
                out.append(vt.as_str());
                out.append(" somehow depends on itself");
                proof {
                    assert(out@ =~= spec_describe(*self));
                }
            },
            SolveError::Cancelled { message } => {
                out.append("Dependency resolution was cancelled.\n\n");
                out.append(message.as_str());
                proof {
                    assert(out@ =~= spec_describe(*self));
                }
            },
            SolveError::Internal { message } => {
                out.append("An unrecoverable error happened while solving dependencies:\n\n");
                out.append(message.as_str());
                proof {
                    assert(out@ =~= spec_describe(*self));
                }
            },
        }
        out
    }
}

/// No package is resolved twice.
pub open spec fn unique_picks(es: Seq<Pick>) -> bool {
    forall|i: int, j: int| 0 <= i < j < es.len() ==> es[i].pkg@ != es[j].pkg@
}

/// The assignment resolves `p` to exactly `v`.
pub open spec fn sol_has(es: Seq<Pick>, p: Seq<char>, v: Version) -> bool {
    exists|k: int| 0 <= k < es.len() && (#[trigger] es[k]).pkg@ == p && es[k].version == v
}

/// The assignment gives `d`'s package a version `d`'s constraint allows.
pub open spec fn dep_met(es: Seq<Pick>, d: Dep) -> bool {
    exists|k: int|
        0 <= k < es.len() && (#[trigger] es[k]).pkg@ == d.pkg@ && d.constraint.spec_allows(
            es[k].version,
        )
}

/// Every dependency in the list is met by the assignment.
pub open spec fn all_deps_met(es: Seq<Pick>, ds: Seq<Dep>) -> bool {
    forall|i: int| 0 <= i < ds.len() ==> dep_met(es, #[trigger] ds[i])
}

/// The evidence holds a manifest for `p` at `v`.
pub open spec fn evidence_has(ms: Seq<Fetched>, p: Seq<char>, v: Version) -> bool {
    exists|m: int| 0 <= m < ms.len() && (#[trigger] ms[m]).pkg@ == p && ms[m].version == v
}

/// Two dependency lists declare the same packages and constraints.
pub open spec fn deps_match(a: Seq<Dep>, b: Seq<Dep>) -> bool {
    a.len() == b.len() && forall|i: int|
        0 <= i < a.len() ==> (#[trigger] a[i]).pkg@ == b[i].pkg@ && a[i].constraint@
            == b[i].constraint@
}

/// A cached manifest for `p` at `v` lists `p` itself as a dependency.
pub open spec fn self_dep_in_cache(ms: Seq<Fetched>, p: Seq<char>, v: Version) -> bool {
    exists|i: int, d: int|
        #![trigger ms[i].manifest.deps@[d]]
        0 <= i < ms.len() && ms[i].pkg@ == p && ms[i].version == v && 0 <= d
            < ms[i].manifest.deps@.len() && ms[i].manifest.deps@[d].pkg@ == p
}

/// A cached manifest for `p` at `v` declares a dependency on `q` that no
/// version at all can satisfy.
pub open spec fn empty_dep_in_cache(ms: Seq<Fetched>, p: Seq<char>, v: Version, q: Seq<char>) -> bool {
    exists|i: int, d: int|
        #![trigger ms[i].manifest.deps@[d]]
        0 <= i < ms.len() && ms[i].pkg@ == p && ms[i].version == v && 0 <= d
            < ms[i].manifest.deps@.len() && ms[i].manifest.deps@[d].pkg@ == q && (forall|w: Version|
            !ms[i].manifest.deps@[d].constraint.spec_allows(w))
}

/// Evidence only ever grows, so what it holds stays held.
proof fn lemma_evidence_monotone(a: Seq<Fetched>, b: Seq<Fetched>, p: Seq<char>, v: Version)
    requires
        a.len() <= b.len(),
        forall|i: int| 0 <= i < a.len() ==> b[i] == a[i],
        evidence_has(a, p, v),
    ensures
        evidence_has(b, p, v),
{
    let m = choose|m: int| 0 <= m < a.len() && (#[trigger] a[m]).pkg@ == p && a[m].version == v;
    assert(b[m] == a[m]);
}

/// Some recorded listing for `p` offers version `v`.
pub open spec fn offered_has(os: Seq<Offered>, p: Seq<char>, v: Version) -> bool {
    exists|i: int|
        0 <= i < os.len() && (#[trigger] os[i]).pkg@ == p && os[i].versions@.contains(v)
}

/// Every resolved version was offered by the provider for its package: no
/// version in the assignment is invented.
pub open spec fn spec_solution_offered(os: Seq<Offered>, es: Seq<Pick>) -> bool {
    forall|k: int| 0 <= k < es.len() ==> offered_has(os, (#[trigger] es[k]).pkg@, es[k].version)
}

/// `p` is a dependency declared by some resolved manifest in evidence.
pub open spec fn needed_by(ms: Seq<Fetched>, es: Seq<Pick>, p: Seq<char>) -> bool {
    exists|m: int, d: int|
        #![trigger ms[m].manifest.deps@[d]]
        0 <= m < ms.len() && 0 <= d < ms[m].manifest.deps@.len() && sol_has(
            es,
            ms[m].pkg@,
            ms[m].version,
        ) && ms[m].manifest.deps@[d].pkg@ == p
}

/// Soundness of an assignment against the root requirements and the
/// fetched manifests: one version per package; every root requirement met;
/// every resolved package's own manifest in evidence; and every dependency
/// declared by a resolved package version met as well.
pub open spec fn spec_solution_sound(roots: Seq<Dep>, ms: Seq<Fetched>, es: Seq<Pick>) -> bool {
    &&& unique_picks(es)
    &&& all_deps_met(es, roots)
    &&& forall|k: int| 0 <= k < es.len() ==> evidence_has(ms, (#[trigger] es[k]).pkg@, es[k].version)
    &&& forall|m: int|
        0 <= m < ms.len() && sol_has(es, (#[trigger] ms[m]).pkg@, ms[m].version) ==> all_deps_met(
            es,
            ms[m].manifest.deps@,
        )
    &&& forall|k: int|
        0 <= k < es.len() ==> reqs_require(roots, (#[trigger] es[k]).pkg@) || needed_by(
            ms,
            es,
            es[k].pkg@,
        )
    &&& forall|m: int, d: int|
        #![trigger ms[m].manifest.deps@[d]]
        0 <= m < ms.len() && sol_has(es, ms[m].pkg@, ms[m].version) && 0 <= d
            < ms[m].manifest.deps@.len() ==> ms[m].manifest.deps@[d].pkg@ != ms[m].pkg@
}

/// Finds the entry resolving `p`, if any.
fn find_pick(es: &Vec<Pick>, p: &Pkg) -> (r: Option<usize>)
    ensures
        match r {
            Some(k) => 0 <= k < es@.len() && es@[k as int].pkg@ == p@,
            None => forall|k: int| 0 <= k < es@.len() ==> (#[trigger] es@[k]).pkg@ != p@,
        },
{
    let n = es.len();
    let mut k: usize = 0;
    while k < n
        invariant
            0 <= k <= n,
            n == es@.len(),
            forall|i: int| 0 <= i < k ==> (#[trigger] es@[i]).pkg@ != p@,
        decreases n - k,
    {
        if es[k].pkg.is_same(p) {
            return Some(k);
        }
        k = k + 1;
    }
    None
}

/// Whether the assignment meets dependency `d`.
fn check_dep_met(es: &Vec<Pick>, d: &Dep) -> (r: bool)
    ensures
        r == dep_met(es@, *d),
{
    let n = es.len();
    let mut k: usize = 0;
    while k < n
        invariant
            0 <= k <= n,
            n == es@.len(),
            forall|i: int|
                0 <= i < k ==> !((#[trigger] es@[i]).pkg@ == d.pkg@ && d.constraint.spec_allows(
                    es@[i].version,
                )),
        decreases n - k,
    {
        if es[k].pkg.is_same(&d.pkg) && d.constraint.allows(&es[k].version) {
            return true;
        }
        k = k + 1;
    }
    proof {
        if dep_met(es@, *d) {
            let k = choose|k: int|
                0 <= k < es@.len() && (#[trigger] es@[k]).pkg@ == d.pkg@
                    && d.constraint.spec_allows(es@[k].version);
        }
    }
    false
}

/// Whether the assignment meets every dependency in the list.
fn check_all_deps_met(es: &Vec<Pick>, ds: &Vec<Dep>) -> (r: bool)
    ensures
        r == all_deps_met(es@, ds@),
{
    let n = ds.len();
    let mut k: usize = 0;
    while k < n
        invariant
            0 <= k <= n,
            n == ds@.len(),
            forall|i: int| 0 <= i < k ==> dep_met(es@, #[trigger] ds@[i]),
        decreases n - k,
    {
        if !check_dep_met(es, &ds[k]) {
            proof {
                assert(!dep_met(es@, ds@[k as int]));
            }
            return false;
        }
        k = k + 1;
    }
    true
}

/// Whether the evidence holds a manifest for exactly this package version.
fn find_evidence(ms: &Vec<Fetched>, p: &Pkg, v: &Version) -> (r: bool)
    ensures
        r == evidence_has(ms@, p@, *v),
{
    let n = ms.len();
    let mut m: usize = 0;
    while m < n
        invariant
            0 <= m <= n,
            n == ms@.len(),
            forall|i: int|
                0 <= i < m ==> !((#[trigger] ms@[i]).pkg@ == p@ && ms@[i].version == *v),
        decreases n - m,
    {
        if ms[m].pkg.is_same(p) && ms[m].version == *v {
            return true;
        }
        m = m + 1;
    }
    proof {
        if evidence_has(ms@, p@, *v) {
            let i = choose|i: int|
                0 <= i < ms@.len() && (#[trigger] ms@[i]).pkg@ == p@ && ms@[i].version == *v;
        }
    }
    false
}


/// Whether some resolved manifest in evidence declares a dependency on `p`.
#[verifier::loop_isolation(false)]
fn check_needed_by(ms: &Vec<Fetched>, es: &Vec<Pick>, p: &Pkg) -> (r: bool)
    requires
        unique_picks(es@),
    ensures
        r == needed_by(ms@, es@, p@),
{
    let nm = ms.len();
    let mut m: usize = 0;
    while m < nm
        invariant
            0 <= m <= nm,
            forall|i: int, d: int|
                #![trigger ms@[i].manifest.deps@[d]]
                0 <= i < m && 0 <= d < ms@[i].manifest.deps@.len() ==> !(sol_has(
                    es@,
                    ms@[i].pkg@,
                    ms@[i].version,
                ) && ms@[i].manifest.deps@[d].pkg@ == p@),
        decreases nm - m,
    {
        let fp = find_pick(es, &ms[m].pkg);
        let used = match fp {
            Some(k) => ms[m].version == es[k].version,
            None => false,
        };
        if used {
            if let Some(di) = find_dep(&ms[m].manifest.deps, p) {
                proof {
                    let k2 = fp->Some_0 as int;
                    assert(es@[k2].pkg@ == ms@[m as int].pkg@ && es@[k2].version == ms@[
                        m as int
                    ].version);
                    assert(sol_has(es@, ms@[m as int].pkg@, ms@[m as int].version));
                    assert(ms@[m as int].manifest.deps@[di as int].pkg@ == p@);
                }
                return true;
            }
        }
        proof {
            if sol_has(es@, ms@[m as int].pkg@, ms@[m as int].version) && !used {
                let k = choose|k: int|
                    0 <= k < es@.len() && (#[trigger] es@[k]).pkg@ == ms@[m as int].pkg@ && es@[
                        k
                    ].version == ms@[m as int].version;
                if fp is Some {
                    let k2 = fp->Some_0 as int;
                    if k < k2 {
                        assert(es@[k].pkg@ != es@[k2].pkg@);
                    } else if k2 < k {
                        assert(es@[k2].pkg@ != es@[k].pkg@);
                    }
                    assert(k == k2);
                } else {
                    assert(es@[k].pkg@ != ms@[m as int].pkg@);
                }
            }
        }
        m = m + 1;
    }
    proof {
        if needed_by(ms@, es@, p@) {
            let (m0, d0) = choose|m0: int, d0: int|
                #![trigger ms@[m0].manifest.deps@[d0]]
                0 <= m0 < ms@.len() && 0 <= d0 < ms@[m0].manifest.deps@.len() && sol_has(
                    es@,
                    ms@[m0].pkg@,
                    ms@[m0].version,
                ) && ms@[m0].manifest.deps@[d0].pkg@ == p@;
        }
    }
    false
}

/// Whether some recorded listing for `p` offers exactly `v`.
fn check_offered_one(os: &Vec<Offered>, p: &Pkg, v: &Version) -> (r: bool)
    ensures
        r == offered_has(os@, p@, *v),
{
    let n = os.len();
    let mut i: usize = 0;
    while i < n
        invariant
            0 <= i <= n,
            n == os@.len(),
            forall|t: int|
                0 <= t < i ==> !((#[trigger] os@[t]).pkg@ == p@ && os@[t].versions@.contains(*v)),
        decreases n - i,
    {
        if os[i].pkg.is_same(p) {
            let nv = os[i].versions.len();
            let mut j: usize = 0;
            while j < nv
                invariant
                    0 <= j <= nv,
                    i < n,
                    n == os@.len(),
                    nv == os@[i as int].versions@.len(),
                    os@[i as int].pkg@ == p@,
                    forall|t: int| 0 <= t < j ==> os@[i as int].versions@[t] != *v,
                decreases nv - j,
            {
                if os[i].versions[j] == *v {
                    proof {
                        assert(os@[i as int].versions@[j as int] == *v);
                        assert(os@[i as int].versions@.contains(*v));
                        assert(os@[i as int].pkg@ == p@ && os@[i as int].versions@.contains(*v));
                        assert(offered_has(os@, p@, *v));
                    }
                    return true;
                }
                j = j + 1;
            }
            proof {
                if os@[i as int].versions@.contains(*v) {
                    let t = choose|t: int|
                        0 <= t < os@[i as int].versions@.len() && os@[i as int].versions@[t] == *v;
                }
            }
        }
        i = i + 1;
    }
    proof {
        if offered_has(os@, p@, *v) {
            let t = choose|t: int|
                0 <= t < os@.len() && (#[trigger] os@[t]).pkg@ == p@ && os@[t].versions@.contains(
                    *v,
                );
        }
    }
    false
}

/// Checks that every piece of evidence is the manifest of a resolved
/// pair: the solution carries no stray manifests.
#[verifier::loop_isolation(false)]
fn check_evidence_resolved(ms: &Vec<Fetched>, es: &Vec<Pick>) -> (r: bool)
    requires
        unique_picks(es@),
    ensures
        r == (forall|m: int|
            0 <= m < ms@.len() ==> sol_has(es@, (#[trigger] ms@[m]).pkg@, ms@[m].version)),
{
    let n = ms.len();
    let mut m: usize = 0;
    while m < n
        invariant
            0 <= m <= n,
            forall|i: int|
                0 <= i < m ==> sol_has(es@, (#[trigger] ms@[i]).pkg@, ms@[i].version),
        decreases n - m,
    {
        let fp = find_pick(es, &ms[m].pkg);
        let used = match fp {
            Some(k) => ms[m].version == es[k].version,
            None => false,
        };
        if !used {
            proof {
                if sol_has(es@, ms@[m as int].pkg@, ms@[m as int].version) {
                    let k = choose|k: int|
                        0 <= k < es@.len() && (#[trigger] es@[k]).pkg@ == ms@[m as int].pkg@
                            && es@[k].version == ms@[m as int].version;
                    if fp is Some {
                        let k2 = fp->Some_0 as int;
                        if k < k2 {
                            assert(es@[k].pkg@ != es@[k2].pkg@);
                        } else if k2 < k {
                            assert(es@[k2].pkg@ != es@[k].pkg@);
                        }
                        assert(k == k2);
                    } else {
                        assert(es@[k].pkg@ != ms@[m as int].pkg@);
                    }
                }
            }
            return false;
        }
        proof {
            let k2 = fp->Some_0 as int;
            assert(es@[k2].pkg@ == ms@[m as int].pkg@ && es@[k2].version == ms@[m as int].version);
            assert(sol_has(es@, ms@[m as int].pkg@, ms@[m as int].version));
        }
        m = m + 1;
    }
    true
}

/// Checks that every resolved version appears in the recorded listings.
pub fn check_offered(os: &Vec<Offered>, es: &Vec<Pick>) -> (r: bool)
    ensures
        r == spec_solution_offered(os@, es@),
{
    let n = es.len();
    let mut k: usize = 0;
    while k < n
        invariant
            0 <= k <= n,
            n == es@.len(),
            forall|i: int|
                0 <= i < k ==> offered_has(os@, (#[trigger] es@[i]).pkg@, es@[i].version),
        decreases n - k,
    {
        if !check_offered_one(os, &es[k].pkg, &es[k].version) {
            return false;
        }
        k = k + 1;
    }
    true
}

/// Checks a finished assignment against the root requirements and the
/// evidence, computing exactly the soundness predicate.
#[verifier::loop_isolation(false)]
pub fn check_solution(roots: &Vec<Dep>, ms: &Vec<Fetched>, es: &Vec<Pick>) -> (b: bool)
    ensures
        b == spec_solution_sound(roots@, ms@, es@),
{
    // One version per package.
    let n = es.len();
    let mut i: usize = 0;
    while i < n
        invariant
            0 <= i <= n,
            n == es@.len(),
            forall|a: int, b: int| 0 <= a < b < es@.len() && a < i ==> es@[a].pkg@ != es@[b].pkg@,
        decreases n - i,
    {
        let mut j: usize = i + 1;
        while j < n
            invariant
                i < j <= n,
                n == es@.len(),
                forall|b: int| i < b < j ==> es@[i as int].pkg@ != (#[trigger] es@[b]).pkg@,
            decreases n - j,
        {
            if es[i].pkg.is_same(&es[j].pkg) {
                return false;
            }
            j = j + 1;
        }
        i = i + 1;
    }
    // Root requirements.
    if !check_all_deps_met(es, roots) {
        return false;
    }
    // Evidence covers the assignment.
    let mut k: usize = 0;
    while k < n
        invariant
            0 <= k <= n,
            n == es@.len(),
            forall|i: int|
                0 <= i < k ==> evidence_has(ms@, (#[trigger] es@[i]).pkg@, es@[i].version),
        decreases n - k,
    {
        if !find_evidence(ms, &es[k].pkg, &es[k].version) {
            return false;
        }
        k = k + 1;
    }
    // Dependencies of every resolved manifest.
    let nm = ms.len();
    let mut m: usize = 0;
    while m < nm
        invariant
            0 <= m <= nm,
            nm == ms@.len(),
            forall|i: int|
                0 <= i < m && sol_has(es@, (#[trigger] ms@[i]).pkg@, ms@[i].version)
                    ==> all_deps_met(es@, ms@[i].manifest.deps@),
            forall|i: int, d: int|
                #![trigger ms@[i].manifest.deps@[d]]
                0 <= i < m && sol_has(es@, ms@[i].pkg@, ms@[i].version) && 0 <= d
                    < ms@[i].manifest.deps@.len() ==> ms@[i].manifest.deps@[d].pkg@ != ms@[i].pkg@,
        decreases nm - m,
    {
        let fp = find_pick(es, &ms[m].pkg);
        let used = match fp {
            Some(k) => ms[m].version == es[k].version,
            None => false,
        };
        if used {
            proof {
                let k2 = fp->Some_0 as int;
                assert(es@[k2].pkg@ == ms@[m as int].pkg@ && es@[k2].version == ms@[
                    m as int
                ].version);
                assert(sol_has(es@, ms@[m as int].pkg@, ms@[m as int].version));
            }
            if !check_all_deps_met(es, &ms[m].manifest.deps) {
                return false;
            }
            // A resolved manifest must not list its own package.
            if let Some(di) = find_dep(&ms[m].manifest.deps, &ms[m].pkg) {
                proof {
                    assert(ms@[m as int].manifest.deps@[di as int].pkg@ == ms@[m as int].pkg@);
                }
                return false;
            }
        }
        proof {
            if sol_has(es@, ms@[m as int].pkg@, ms@[m as int].version) && !used {
                let k = choose|k: int|
                    0 <= k < es@.len() && (#[trigger] es@[k]).pkg@ == ms@[m as int].pkg@ && es@[
                        k
                    ].version == ms@[m as int].version;
                if fp is Some {
                    let k2 = fp->Some_0 as int;
                    // Both entries name the same package, so they coincide.
                    if k < k2 {
                        assert(es@[k].pkg@ != es@[k2].pkg@);
                    } else if k2 < k {
                        assert(es@[k2].pkg@ != es@[k].pkg@);
                    }
                    assert(k == k2);
                } else {
                    assert(es@[k].pkg@ != ms@[m as int].pkg@);
                }
            }
        }
        m = m + 1;
    }
    // Every resolved package answers a root requirement or a dependency of
    // a resolved manifest: nothing extraneous is in the assignment.
    let mut k2: usize = 0;
    while k2 < n
        invariant
            0 <= k2 <= n,
            forall|i: int|
                0 <= i < k2 ==> reqs_require(roots@, (#[trigger] es@[i]).pkg@) || needed_by(
                    ms@,
                    es@,
                    es@[i].pkg@,
                ),
        decreases n - k2,
    {
        let wanted = match find_dep(roots, &es[k2].pkg) {
            Some(ri) => {
                proof {
                    assert(roots@[ri as int].pkg@ == es@[k2 as int].pkg@);
                    assert(reqs_require(roots@, es@[k2 as int].pkg@));
                }
                true
            },
            None => check_needed_by(ms, es, &es[k2].pkg),
        };
        if !wanted {
            return false;
        }
        k2 = k2 + 1;
    }
    true
}


/// One requirement edge, kept for failure reports: `source` (or the root
/// project, when absent) requires `pkg` within `constraint`.
struct Edge {
    source: Option<Pick>,
    pkg: Pkg,
    constraint: Constraint,
}

/// One tentative decision on the trail, with everything needed to undo it
/// and to try the next candidate.
struct Frame {
    pkg: Pkg,
    version: Version,
    manifest: Manifest,
    saved_reqs: Vec<Dep>,
    versions: Vec<Version>,
    next_idx: usize,
}

/// Requirement lists and manifests stored on the trail stay canonical.
spec fn trail_wf(tr: Seq<Frame>) -> bool {
    forall|i: int|
        0 <= i < tr.len() ==> unique_deps((#[trigger] tr[i]).saved_reqs@) && deps_wf(
            tr[i].saved_reqs@,
        ) && deps_wf(tr[i].manifest.deps@)
}

/// Every cached manifest is canonical.
spec fn cache_wf(ms: Seq<Fetched>) -> bool {
    forall|i: int| 0 <= i < ms.len() ==> deps_wf((#[trigger] ms[i]).manifest.deps@)
}

/// A copy of a version list.
fn dup_versions(v: &Vec<Version>) -> (r: Vec<Version>)
    ensures
        r@ == v@,
{
    let n = v.len();
    let mut out: Vec<Version> = Vec::new();
    let mut k: usize = 0;
    while k < n
        invariant
            0 <= k <= n,
            n == v@.len(),
            out@ == v@.take(k as int),
        decreases n - k,
    {
        out.push(v[k]);
        proof {
            assert(out@ =~= v@.take(k + 1));
        }
        k = k + 1;
    }
    proof {
        assert(out@ =~= v@);
    }
    out
}

/// A copy of a dependency list, entry by entry.
fn dup_deps(v: &Vec<Dep>) -> (r: Vec<Dep>)
    ensures
        r@.len() == v@.len(),
        forall|i: int|
            0 <= i < v@.len() ==> (#[trigger] r@[i]).pkg@ == v@[i].pkg@ && r@[i].constraint@
                == v@[i].constraint@,
        unique_deps(v@) ==> unique_deps(r@),
        deps_wf(v@) ==> deps_wf(r@),
{
    let n = v.len();
    let mut out: Vec<Dep> = Vec::new();
    let mut k: usize = 0;
    while k < n
        invariant
            0 <= k <= n,
            n == v@.len(),
            out@.len() == k,
            forall|i: int|
                0 <= i < k ==> (#[trigger] out@[i]).pkg@ == v@[i].pkg@ && out@[i].constraint@
                    == v@[i].constraint@,
        decreases n - k,
    {
        out.push(v[k].duplicate());
        k = k + 1;
    }
    out
}

/// A copy of a manifest, entry by entry.
fn dup_manifest(m: &Manifest) -> (r: Manifest)
    ensures
        r.deps@.len() == m.deps@.len(),
        forall|i: int|
            0 <= i < m.deps@.len() ==> (#[trigger] r.deps@[i]).pkg@ == m.deps@[i].pkg@
                && r.deps@[i].constraint@ == m.deps@[i].constraint@,
        r.test_deps@.len() == m.test_deps@.len(),
        deps_wf(m.deps@) ==> deps_wf(r.deps@),
{
    Manifest { deps: dup_deps(&m.deps), test_deps: dup_deps(&m.test_deps) }
}

/// Finds an entry naming `p` in a dependency list.
fn find_dep(list: &Vec<Dep>, p: &Pkg) -> (r: Option<usize>)
    ensures
        match r {
            Some(k) => 0 <= k < list@.len() && list@[k as int].pkg@ == p@,
            None => forall|k: int| 0 <= k < list@.len() ==> (#[trigger] list@[k]).pkg@ != p@,
        },
{
    let n = list.len();
    let mut k: usize = 0;
    while k < n
        invariant
            0 <= k <= n,
            n == list@.len(),
            forall|i: int| 0 <= i < k ==> (#[trigger] list@[i]).pkg@ != p@,
        decreases n - k,
    {
        if list[k].pkg.is_same(p) {
            return Some(k);
        }
        k = k + 1;
    }
    None
}

/// Finds the trail frame that decided `p`, if any.
fn find_frame(tr: &Vec<Frame>, p: &Pkg) -> (r: Option<usize>)
    ensures
        r is Some ==> 0 <= r->Some_0 < tr@.len() && tr@[r->Some_0 as int].pkg@ == p@,
{
    let n = tr.len();
    let mut k: usize = 0;
    while k < n
        invariant
            0 <= k <= n,
            n == tr@.len(),
        decreases n - k,
    {
        if tr[k].pkg.is_same(p) {
            return Some(k);
        }
        k = k + 1;
    }
    None
}

/// Returns the version list for `pkg`, asking the provider only on the
/// first request per package and the session cache afterwards.
fn list_for<P: Provider>(cache: &mut Vec<Offered>, provider: &mut P, pkg: &Pkg) -> (r: Result<
    Vec<Version>,
    SolveError,
>) {
    let n = cache.len();
    let mut k: usize = 0;
    while k < n
        invariant
            0 <= k <= n,
            n == cache@.len(),
        decreases n - k,
    {
        if cache[k].pkg.is_same(pkg) {
            return Ok(dup_versions(&cache[k].versions));
        }
        k = k + 1;
    }
    match provider.list_versions(pkg) {
        Ok(vs) => {
            cache.push(Offered { pkg: pkg.duplicate(), versions: dup_versions(&vs) });
            Ok(vs)
        },
        Err(ProviderError::Failed(message)) => Err(
            SolveError::VersionList { pkg: pkg.duplicate(), message },
        ),
        Err(ProviderError::Cancelled(message)) => Err(SolveError::Cancelled { message }),
    }
}

/// Returns the manifest of `pkg` at `version`, canonicalized, fetching it
/// from the provider only on the first request per pair.
fn manifest_for<P: Provider>(
    cache: &mut Vec<Fetched>,
    provider: &mut P,
    pkg: &Pkg,
    version: &Version,
) -> (r: Result<Manifest, SolveError>)
    requires
        cache_wf(old(cache)@),
    ensures
        cache_wf(final(cache)@),
        r is Ok ==> deps_wf(r->Ok_0.deps@),
        old(cache)@.len() <= final(cache)@.len(),
        forall|i: int| 0 <= i < old(cache)@.len() ==> final(cache)@[i] == old(cache)@[i],
        r is Ok ==> exists|i: int|
            0 <= i < final(cache)@.len() && (#[trigger] final(cache)@[i]).pkg@ == pkg@
                && final(cache)@[i].version == *version && deps_match(
                final(cache)@[i].manifest.deps@,
                r->Ok_0.deps@,
            ),
        r is Err ==> (r->Err_0 is Fetch || r->Err_0 is Cancelled),
{
    let n = cache.len();
    let mut k: usize = 0;
    while k < n
        invariant
            0 <= k <= n,
            n == cache@.len(),
            cache_wf(cache@),
            cache@ == old(cache)@,
        decreases n - k,
    {
        if cache[k].pkg.is_same(pkg) && cache[k].version == *version {
            let m = dup_manifest(&cache[k].manifest);
            proof {
                assert(deps_wf(cache@[k as int].manifest.deps@));
                assert(cache@[k as int].pkg@ == pkg@ && cache@[k as int].version == *version
                    && deps_match(cache@[k as int].manifest.deps@, m.deps@));
            }
            return Ok(m);
        }
        k = k + 1;
    }
    match provider.fetch_manifest(pkg, version) {
        Ok(raw) => {
            let m = raw.sanitized();
            let ghost pre = cache@;
            cache.push(
                Fetched { pkg: pkg.duplicate(), version: *version, manifest: dup_manifest(&m) },
            );
            proof {
                assert forall|i: int| 0 <= i < cache@.len() implies deps_wf(
                    (#[trigger] cache@[i]).manifest.deps@,
                ) by {
                    if i < pre.len() {
                        assert(cache@[i] == pre[i]);
                    }
                }
                let last = pre.len() as int;
                assert(cache@[last].pkg@ == pkg@ && cache@[last].version == *version
                    && deps_match(cache@[last].manifest.deps@, m.deps@));
            }
            Ok(m)
        },
        Err(ProviderError::Failed(message)) => Err(
            SolveError::Fetch { pkg: pkg.duplicate(), version: *version, message },
        ),
        Err(ProviderError::Cancelled(message)) => Err(SolveError::Cancelled { message }),
    }
}

/// Tries the candidates of one package from `start` on, in the provider's
/// preference order, and places the first one that fits: its manifest is
/// fetched, its dependencies are recorded and folded into the requirement
/// list, and a trail frame is pushed. Returns `Ok(false)` when no
/// remaining candidate fits.
#[verifier::loop_isolation(false)]
fn try_place<P: Provider>(
    reqs: &mut Vec<Dep>,
    trail: &mut Vec<Frame>,
    mcache: &mut Vec<Fetched>,
    provider: &mut P,
    pkg: &Pkg,
    constraint: &Constraint,
    versions: &Vec<Version>,
    start: usize,
    log: &mut Vec<Edge>,
    conflict: &mut Option<Pkg>,
) -> (r: Result<bool, SolveError>)
    requires
        unique_deps(old(reqs)@),
        deps_wf(old(reqs)@),
        trail_wf(old(trail)@),
        cache_wf(old(mcache)@),
    ensures
        unique_deps(final(reqs)@),
        deps_wf(final(reqs)@),
        trail_wf(final(trail)@),
        cache_wf(final(mcache)@),
        r == Ok::<bool, SolveError>(false) ==> final(trail)@ == old(trail)@,
        r == Ok::<bool, SolveError>(false) ==> (forall|j: int|
            start <= j < versions@.len() ==> !constraint.spec_allows(#[trigger] versions@[j])
                || evidence_has(final(mcache)@, pkg@, versions@[j])),
        r == Ok::<bool, SolveError>(true) ==> final(trail)@.len() == old(trail)@.len() + 1 && (
        forall|i: int| 0 <= i < old(trail)@.len() ==> final(trail)@[i] == old(trail)@[i])
            && final(trail)@.last().pkg@ == pkg@ && start < final(trail)@.last().next_idx
            <= versions@.len() && final(trail)@.last().version
            == versions@[final(trail)@.last().next_idx - 1] && constraint.spec_allows(
            final(trail)@.last().version,
        )
            && evidence_has(final(mcache)@, pkg@, final(trail)@.last().version) && (forall|j: int|
            start <= j < final(trail)@.last().next_idx - 1 ==> !constraint.spec_allows(
                #[trigger] versions@[j],
            ) || evidence_has(final(mcache)@, pkg@, versions@[j])),
        (r is Err && r->Err_0 is SelfDependency) ==> (r->Err_0 matches SolveError::SelfDependency {
            pkg: sp,
            version: sv,
        } && sp@ == pkg@ && constraint.spec_allows(sv) && self_dep_in_cache(
            final(mcache)@,
            pkg@,
            sv,
        )),
        (r is Err && r->Err_0 is ImpossibleDependency) ==> (
        r->Err_0 matches SolveError::ImpossibleDependency {
            dependent: dp,
            version: dv,
            dependency: dq,
        } && dp@ == pkg@ && constraint.spec_allows(dv) && empty_dep_in_cache(
            final(mcache)@,
            pkg@,
            dv,
            dq@,
        )),
{
    let n = versions.len();
    let mut idx = start;
    if idx > n {
        idx = n;
    }
    while idx < n
        invariant
            0 <= idx <= n,
            start <= idx || idx == n,
            n == versions@.len(),
            unique_deps(reqs@),
            deps_wf(reqs@),
            trail_wf(trail@),
            cache_wf(mcache@),
            trail@ == old(trail)@,
            forall|j: int|
                start <= j < idx ==> !constraint.spec_allows(#[trigger] versions@[j])
                    || evidence_has(mcache@, pkg@, versions@[j]),
        decreases n - idx,
    {
        let v = versions[idx];
        if !constraint.allows(&v) {
            idx = idx + 1;
            continue ;
        }
        let ghost pre_cache = mcache@;
        let m = match manifest_for(mcache, provider, pkg, &v) {
            Ok(m) => m,
            Err(e) => {
                return Err(e);
            },
        };
        proof {
            // The examined candidates stay in evidence as the cache grows.
            assert forall|j: int|
                start <= j < idx implies !constraint.spec_allows(#[trigger] versions@[j])
                || evidence_has(mcache@, pkg@, versions@[j]) by {
                if constraint.spec_allows(versions@[j]) {
                    lemma_evidence_monotone(pre_cache, mcache@, pkg@, versions@[j]);
                }
            }
            let ci = choose|i: int|
                0 <= i < mcache@.len() && (#[trigger] mcache@[i]).pkg@ == pkg@ && mcache@[
                    i
                ].version == v && deps_match(mcache@[i].manifest.deps@, m.deps@);
            assert(evidence_has(mcache@, pkg@, v));
        }
        // A package whose own manifest lists itself is immediately fatal.
        if let Some(sdi) = find_dep(&m.deps, pkg) {
            proof {
                let ci = choose|i: int|
                    0 <= i < mcache@.len() && (#[trigger] mcache@[i]).pkg@ == pkg@ && mcache@[
                        i
                    ].version == v && deps_match(mcache@[i].manifest.deps@, m.deps@);
                assert(m.deps@[sdi as int].pkg@ == pkg@);
                assert(mcache@[ci].manifest.deps@[sdi as int].pkg@ == pkg@);
                assert(self_dep_in_cache(mcache@, pkg@, v));
            }
            return Err(SolveError::SelfDependency { pkg: pkg.duplicate(), version: v });
        }
        // A declared dependency that no version at all can satisfy is
        // immediately fatal as well.
        let nd = m.deps.len();
        let mut di: usize = 0;
        while di < nd
            invariant
                0 <= di <= nd,
                nd == m.deps@.len(),
                deps_wf(m.deps@),
            decreases nd - di,
        {
            proof {
                assert(m.deps@[di as int].constraint.wf());
            }
            if m.deps[di].constraint.is_empty() {
                proof {
                    let ci = choose|i: int|
                        0 <= i < mcache@.len() && (#[trigger] mcache@[i]).pkg@ == pkg@ && mcache@[
                            i
                        ].version == v && deps_match(mcache@[i].manifest.deps@, m.deps@);
                    assert(mcache@[ci].manifest.deps@[di as int].pkg@ == m.deps@[di as int].pkg@);
                    assert(mcache@[ci].manifest.deps@[di as int].constraint@ == m.deps@[
                        di as int
                    ].constraint@);
                    assert(empty_dep_in_cache(mcache@, pkg@, v, m.deps@[di as int].pkg@));
                }
                return Err(
                    SolveError::ImpossibleDependency {
                        dependent: pkg.duplicate(),
                        version: v,
                        dependency: m.deps[di].pkg.duplicate(),
                    },
                );
            }
            di = di + 1;
        }
        // Fold the declared dependencies into a tentative requirement
        // list, rejecting this candidate on any conflict.
        let mut cand = dup_deps(reqs);
        let mut ok = true;
        let mut dj: usize = 0;
        while dj < nd
            invariant
                0 <= dj <= nd,
                nd == m.deps@.len(),
                deps_wf(m.deps@),
                unique_deps(cand@),
                deps_wf(cand@),
                trail_wf(trail@),
            decreases nd - dj,
        {
            let d = m.deps[dj].duplicate();
            proof {
                assert(m.deps@[dj as int].constraint.wf());
            }
            // A dependency on an already-decided package must accept the
            // decided version.
            if let Some(f) = find_frame(trail, &d.pkg) {
                if !d.constraint.allows(&trail[f].version) {
                    ok = false;
                    *conflict = Some(d.pkg.duplicate());
                }
            }
            merge_dep(&mut cand, &d);
            if let Some(ri) = find_dep(&cand, &d.pkg) {
                proof {
                    assert(cand@[ri as int].constraint.wf());
                }
                if cand[ri].constraint.is_empty() {
                    ok = false;
                    *conflict = Some(d.pkg.duplicate());
                }
            }
            log.push(
                Edge {
                    source: Some(Pick { pkg: pkg.duplicate(), version: v }),
                    pkg: d.pkg,
                    constraint: d.constraint,
                },
            );
            dj = dj + 1;
        }
        if ok {
            let saved = dup_deps(reqs);
            let ghost pretrail = trail@;
            trail.push(
                Frame {
                    pkg: pkg.duplicate(),
                    version: v,
                    manifest: m,
                    saved_reqs: saved,
                    versions: dup_versions(versions),
                    next_idx: idx + 1,
                },
            );
            proof {
                assert forall|i: int| 0 <= i < trail@.len() implies unique_deps(
                    (#[trigger] trail@[i]).saved_reqs@,
                ) && deps_wf(trail@[i].saved_reqs@) && deps_wf(trail@[i].manifest.deps@) by {
                    if i < pretrail.len() {
                        assert(trail@[i] == pretrail[i]);
                    }
                }
                assert(trail@.len() == pretrail.len() + 1);
                assert(forall|i: int| 0 <= i < pretrail.len() ==> trail@[i] == pretrail[i]);
                assert(trail@.last().pkg@ == pkg@);
                assert(trail@.last().version == versions@[idx as int]);
                assert(trail@.last().next_idx == idx + 1);
            }
            *reqs = cand;
            return Ok(true);
        }
        idx = idx + 1;
    }
    Ok(false)
}

/// Undoes decisions until one of them has a further candidate that fits,
/// or the trail is exhausted (`Ok(false)`).
#[verifier::loop_isolation(false)]
fn backtrack<P: Provider>(
    reqs: &mut Vec<Dep>,
    trail: &mut Vec<Frame>,
    mcache: &mut Vec<Fetched>,
    provider: &mut P,
    log: &mut Vec<Edge>,
    conflict: &mut Option<Pkg>,
) -> (r: Result<bool, SolveError>)
    requires
        unique_deps(old(reqs)@),
        deps_wf(old(reqs)@),
        trail_wf(old(trail)@),
        cache_wf(old(mcache)@),
    ensures
        unique_deps(final(reqs)@),
        deps_wf(final(reqs)@),
        trail_wf(final(trail)@),
        cache_wf(final(mcache)@),
{
    loop
        invariant
            unique_deps(reqs@),
            deps_wf(reqs@),
            trail_wf(trail@),
            cache_wf(mcache@),
        decreases trail@.len(),
    {
        let fr = match trail.pop() {
            None => {
                return Ok(false);
            },
            Some(fr) => fr,
        };
        proof {
            assert(unique_deps(fr.saved_reqs@) && deps_wf(fr.saved_reqs@));
        }
        *reqs = fr.saved_reqs;
        let constraint = match find_dep(reqs, &fr.pkg) {
            Some(ri) => reqs[ri].constraint.duplicate(),
            None => Constraint::empty(),
        };
        let placed = match try_place(
            reqs,
            trail,
            mcache,
            provider,
            &fr.pkg,
            &constraint,
            &fr.versions,
            fr.next_idx,
            log,
            conflict,
        ) {
            Ok(p) => p,
            Err(e) => {
                return Err(e);
            },
        };
        if placed {
            return Ok(true);
        }
    }
}

/// No version at all satisfies this requirement.
pub open spec fn req_empty(d: Dep) -> bool {
    forall|v: Version| !d.constraint.spec_allows(v)
}

/// Some version satisfies this requirement.
pub open spec fn req_nonempty(d: Dep) -> bool {
    exists|v: Version| d.constraint.spec_allows(v)
}

/// Some root requirement is the empty set: no version at all can satisfy
/// it.
pub open spec fn some_root_empty(roots: Seq<Dep>) -> bool {
    exists|i: int| 0 <= i < roots.len() && req_empty(#[trigger] roots[i])
}

/// The two edges record the same requirement from the same source.
spec fn edge_same(a: Edge, b: Edge) -> bool {
    &&& a.pkg@ == b.pkg@
    &&& a.constraint@ == b.constraint@
    &&& match (a.source, b.source) {
        (Option::None, Option::None) => true,
        (Option::Some(x), Option::Some(y)) => x.pkg@ == y.pkg@ && x.version == y.version,
        _ => false,
    }
}

/// Whether two recorded requirement edges say the same thing.
fn same_edge(a: &Edge, b: &Edge) -> (r: bool)
    ensures
        r == edge_same(*a, *b),
{
    let sources_match = match (&a.source, &b.source) {
        (Option::None, Option::None) => true,
        (Option::Some(x), Option::Some(y)) => x.pkg.is_same(&y.pkg) && x.version == y.version,
        _ => false,
    };
    sources_match && a.pkg.is_same(&b.pkg) && a.constraint.is_same(&b.constraint)
}

/// Who demands the requirement: the root project, or a package version.
spec fn spec_edge_source(e: Edge) -> Seq<char> {
    match e.source {
        Option::None => "the root project requires "@,
        Option::Some(pick) => pick.pkg@ + " "@ + spec_fmt_version(pick.version) + " requires "@,
    }
}

/// One cited line of the failure report.
spec fn spec_edge_line(e: Edge) -> Seq<char> {
    spec_edge_source(e) + e.pkg@ + " in "@ + spec_fmt_ranges(e.constraint@) + "\n"@
}

/// Edge `k` is cited: it names the failing package and no earlier edge
/// records the same requirement.
spec fn edge_cited(log: Seq<Edge>, k: int, failing: Seq<char>) -> bool {
    log[k].pkg@ == failing && forall|j: int| 0 <= j < k ==> !edge_same(log[j], log[k])
}

/// The cited lines of the first `k` log entries, in log order.
spec fn spec_report_upto(log: Seq<Edge>, failing: Seq<char>, k: int) -> Seq<char>
    decreases k,
{
    if k <= 0 {
        Seq::empty()
    } else {
        spec_report_upto(log, failing, k - 1) + (if edge_cited(log, k - 1, failing) {
            spec_edge_line(log[k - 1])
        } else {
            Seq::empty()
        })
    }
}

/// The whole failure report: every distinct recorded requirement on the
/// failing package, in the order first recorded, then the terminal line.
spec fn spec_report(log: Seq<Edge>, failing: Seq<char>) -> Seq<char> {
    spec_report_upto(log, failing, log.len() as int) + "no available version of "@ + failing
        + " satisfies all of the requirements above\n"@
}

/// Renders the failure report for `failing`: exactly the text
/// `spec_report` fixes — every distinct requirement on it recorded in the
/// session's append-only incompatibility log (root requirements and
/// requirements declared by candidate package versions, whether or not
/// those candidates remained on the final trail), each cited once,
/// followed by the terminal line. The log is append-only for the whole
/// session, so requirements learned from since-abandoned candidates stay
/// citable, as recorded incompatibilities do.
#[verifier::loop_isolation(false)]
fn render_report(log: &Vec<Edge>, failing: &Pkg) -> (r: String)
    ensures
        r@ == spec_report(log@, failing@),
{
    let mut out = String::new();
    let n = log.len();
    let mut k: usize = 0;
    while k < n
        invariant
            0 <= k <= n,
            n == log@.len(),
            out@ == spec_report_upto(log@, failing@, k as int),
        decreases n - k,
    {
        if log[k].pkg.is_same(failing) {
            // Cite each distinct requirement once.
            let mut seen = false;
            let mut j: usize = 0;
            while j < k
                invariant
                    0 <= j <= k,
                    k < n,
                    seen == exists|t: int| 0 <= t < j && edge_same(log@[t], log@[k as int]),
                decreases k - j,
            {
                if same_edge(&log[j], &log[k]) {
                    seen = true;
                }
                proof {
                    if seen && !edge_same(log@[j as int], log@[k as int]) {
                        let t = choose|t: int|
                            0 <= t < j && edge_same(log@[t], log@[k as int]);
                        assert(0 <= t < j + 1 && edge_same(log@[t], log@[k as int]));
                    }
                    if edge_same(log@[j as int], log@[k as int]) {
                        assert(exists|t: int|
                            0 <= t < j + 1 && edge_same(log@[t], log@[k as int]));
                    }
                }
                j = j + 1;
            }
            if !seen {
                proof {
                    assert forall|t: int| 0 <= t < k implies !edge_same(
                        log@[t],
                        log@[k as int],
                    ) by {
                        if edge_same(log@[t], log@[k as int]) {
                            assert(exists|tt: int|
                                0 <= tt < k && edge_same(log@[tt], log@[k as int]));
                        }
                    }
                    assert(edge_cited(log@, k as int, failing@));
                }
                match &log[k].source {
                    None => {
                        out.append("the root project requires ");
                    },
                    Some(pick) => {
                        out.append(pick.pkg.as_text());
                        out.append(" ");
                        let vt = pick.version.to_text();
                        out.append(vt.as_str());
                        out.append(" requires ");
                    },
                }
                out.append(log[k].pkg.as_text());
                out.append(" in ");
                let ct = log[k].constraint.to_text();
                out.append(ct.as_str());
                out.append("\n");
                proof {
                    assert(out@ =~= spec_report_upto(log@, failing@, k + 1));
                }
            } else {
                proof {
                    let t = choose|t: int| 0 <= t < k && edge_same(log@[t], log@[k as int]);
                    assert(!edge_cited(log@, k as int, failing@));
                    assert(out@ =~= spec_report_upto(log@, failing@, k + 1));
                }
            }
        } else {
            proof {
                assert(!edge_cited(log@, k as int, failing@));
                assert(out@ =~= spec_report_upto(log@, failing@, k + 1));
            }
        }
        k = k + 1;
    }
    out.append("no available version of ");
    out.append(failing.as_text());
    out.append(" satisfies all of the requirements above\n");
    proof {
        assert(out@ =~= spec_report(log@, failing@));
    }
    out
}

/// Solves the given root requirements against the provider.
///
/// On success the returned assignment is checked: it is sound for the
/// root requirements and the fetched manifests it carries, and every
/// resolved version comes from a recorded listing. A root requirement
/// that is already the empty set fails immediately, before any provider
/// call. The search runs under a large fixed step budget — the verifier
/// requires every loop to decrease — and a run that exceeds it stops with
/// the internal-failure classification rather than looping on.
#[verifier::loop_isolation(false)]
pub fn solve_roots<P: Provider>(roots: &Vec<Dep>, provider: &mut P) -> (r: Result<
    Solution,
    SolveError,
>)
    requires
        unique_deps(roots@),
        deps_wf(roots@),
    ensures
        r is Ok ==> spec_solution_sound(roots@, r->Ok_0.manifests@, r->Ok_0.entries@),
        r is Ok ==> spec_solution_offered(r->Ok_0.offers@, r->Ok_0.entries@),
        r is Ok ==> (forall|m: int|
            0 <= m < r->Ok_0.manifests@.len() ==> sol_has(
                r->Ok_0.entries@,
                (#[trigger] r->Ok_0.manifests@[m]).pkg@,
                r->Ok_0.manifests@[m].version,
            )),
        r is Ok ==> r->Ok_0.roots@.len() == roots@.len() && (forall|i: int|
            0 <= i < roots@.len() ==> (#[trigger] r->Ok_0.roots@[i]).pkg@ == roots@[i].pkg@
                && r->Ok_0.roots@[i].constraint@ == roots@[i].constraint@),
        some_root_empty(roots@) ==> r is Err && r->Err_0 is NoSolution,
        roots@.len() == 0 ==> r is Ok,
{
    // An empty effective requirement is a decision-free failure, found
    // before any provider call.
    let nr0 = roots.len();
    let mut log: Vec<Edge> = Vec::new();
    let mut e: usize = 0;
    while e < nr0
        invariant
            0 <= e <= nr0,
            nr0 == roots@.len(),
            forall|i: int| 0 <= i < e ==> req_nonempty(#[trigger] roots@[i]),
        decreases nr0 - e,
    {
        proof {
            assert(roots@[e as int].constraint.wf());
        }
        if roots[e].constraint.is_empty() {
            log.push(
                Edge {
                    source: None,
                    pkg: roots[e].pkg.duplicate(),
                    constraint: roots[e].constraint.duplicate(),
                },
            );
            return Err(SolveError::NoSolution { report: render_report(&log, &roots[e].pkg) });
        }
        proof {
            let c = roots@[e as int].constraint;
            assert(c@[0].contains(c@[0].lo));
            assert(c.spec_allows(c@[0].lo));
            assert(req_nonempty(roots@[e as int]));
        }
        log.push(
            Edge {
                source: None,
                pkg: roots[e].pkg.duplicate(),
                constraint: roots[e].constraint.duplicate(),
            },
        );
        e = e + 1;
    }
    proof {
        assert(!some_root_empty(roots@)) by {
            if some_root_empty(roots@) {
                let i = choose|i: int| 0 <= i < roots@.len() && req_empty(#[trigger] roots@[i]);
                assert(req_nonempty(roots@[i]));
                let w = choose|v: Version| roots@[i].constraint.spec_allows(v);
                assert(!roots@[i].constraint.spec_allows(w));
            }
        }
    }
    let mut reqs = dup_deps(roots);
    let mut trail: Vec<Frame> = Vec::new();
    let mut lcache: Vec<Offered> = Vec::new();
    let mut mcache: Vec<Fetched> = Vec::new();
    let mut fuel: u64 = 1000000;
    loop
        invariant
            unique_deps(reqs@),
            deps_wf(reqs@),
            trail_wf(trail@),
            cache_wf(mcache@),
            roots@.len() == 0 ==> reqs@.len() == 0 && trail@.len() == 0 && fuel == 1000000,
        decreases fuel,
    {
        if fuel == 0 {
            return Err(
                SolveError::Internal {
                    message: String::from_str("the search exceeded its step budget"),
                },
            );
        }
        fuel = fuel - 1;
        // Most-constrained-first: among required, undecided packages, the
        // one with the fewest candidates satisfying its requirement.
        let nr = reqs.len();
        let mut have_best = false;
        let mut best_i: usize = 0;
        let mut best_count: usize = 0;
        let mut i: usize = 0;
        while i < nr
            invariant
                0 <= i <= nr,
                nr == reqs@.len(),
                have_best ==> best_i < i,
                cache_wf(mcache@),
            decreases nr - i,
        {
            if find_frame(&trail, &reqs[i].pkg).is_none() {
                let vs = match list_for(&mut lcache, provider, &reqs[i].pkg) {
                    Ok(vs) => vs,
                    Err(err) => {
                        return Err(err);
                    },
                };
                let nv = vs.len();
                let mut cnt: usize = 0;
                let mut j: usize = 0;
                while j < nv
                    invariant
                        0 <= j <= nv,
                        nv == vs@.len(),
                        cnt <= j,
                        i < nr,
                        nr == reqs@.len(),
                    decreases nv - j,
                {
                    if reqs[i].constraint.allows(&vs[j]) {
                        cnt = cnt + 1;
                    }
                    j = j + 1;
                }
                if !have_best || cnt < best_count {
                    have_best = true;
                    best_i = i;
                    best_count = cnt;
                }
            }
            i = i + 1;
        }
        if !have_best {
            // Every required package is decided: assemble and check.
            let nt = trail.len();
            let mut es: Vec<Pick> = Vec::new();
            let mut ms: Vec<Fetched> = Vec::new();
            let mut t: usize = 0;
            while t < nt
                invariant
                    0 <= t <= nt,
                    nt == trail@.len(),
                    trail_wf(trail@),
                    es@.len() == t,
                    ms@.len() == t,
                decreases nt - t,
            {
                es.push(Pick { pkg: trail[t].pkg.duplicate(), version: trail[t].version });
                ms.push(
                    Fetched {
                        pkg: trail[t].pkg.duplicate(),
                        version: trail[t].version,
                        manifest: dup_manifest(&trail[t].manifest),
                    },
                );
                t = t + 1;
            }
            if check_solution(roots, &ms, &es) {
                if check_offered(&lcache, &es) && check_evidence_resolved(&ms, &es) {
                    return Ok(
                        Solution {
                            roots: dup_deps(roots),
                            entries: es,
                            manifests: ms,
                            offers: lcache,
                        },
                    );
                }
            }
            proof {
                // With no root requirement at all, the empty assignment
                // passes every check, so this branch is unreachable.
                if roots@.len() == 0 {
                    assert(es@.len() == 0);
                    assert(ms@.len() == 0);
                    assert(spec_solution_sound(roots@, ms@, es@));
                    assert(spec_solution_offered(lcache@, es@));
                }
            }
            return Err(
                SolveError::Internal {
                    message: String::from_str("the finished assignment failed its check"),
                },
            );
        }
        let dpkg = reqs[best_i].pkg.duplicate();
        let mut conflict: Option<Pkg> = None;
        let mut exhausted = best_count == 0;
        if !exhausted {
            let dcon = reqs[best_i].constraint.duplicate();
            let vs = match list_for(&mut lcache, provider, &dpkg) {
                Ok(vs) => vs,
                Err(err) => {
                    return Err(err);
                },
            };
            let placed = match try_place(
                &mut reqs,
                &mut trail,
                &mut mcache,
                provider,
                &dpkg,
                &dcon,
                &vs,
                0,
                &mut log,
                &mut conflict,
            ) {
                Ok(p) => p,
                Err(err) => {
                    return Err(err);
                },
            };
            exhausted = !placed;
        }
        if exhausted {
            let resumed = match backtrack(
                &mut reqs,
                &mut trail,
                &mut mcache,
                provider,
                &mut log,
                &mut conflict,
            ) {
                Ok(p) => p,
                Err(err) => {
                    return Err(err);
                },
            };
            if !resumed {
                // Report the package whose requirements clashed, falling
                // back to the one whose candidates ran out.
                let focus = match conflict {
                    Some(q) => q,
                    None => dpkg,
                };
                return Err(SolveError::NoSolution { report: render_report(&log, &focus) });
            }
        }
    }
}

/// Resolves a consistent set of versions for the project: its normal
/// dependencies, its test dependencies when `use_test` is set, and every
/// caller-injected additional constraint, which tightens (never widens)
/// whatever the manifest declares for the same package.
///
/// On success, the solution's root requirements record exactly the
/// effective constraint of every required package, and the assignment is
/// sound for them and for every fetched manifest, with every resolved
/// version taken from the provider's recorded listings. When some
/// package's effective constraint is already empty, the solve fails
/// without any provider call for that package; when nothing is required
/// at all, it succeeds with the empty assignment.
///
/// The search runs under a large fixed step budget; a run that exceeds it
/// stops with the internal-failure classification rather than looping on.
pub fn solve<P: Provider>(
    project: &Manifest,
    use_test: bool,
    additional: &Vec<Dep>,
    provider: &mut P,
) -> (r: Result<Solution, SolveError>)
    requires
        deps_wf(project.deps@),
        deps_wf(project.test_deps@),
        deps_wf(additional@),
    ensures
        r is Ok ==> spec_solution_sound(
            r->Ok_0.roots@,
            r->Ok_0.manifests@,
            r->Ok_0.entries@,
        ),
        r is Ok ==> (forall|p: Seq<char>|
            #[trigger] reqs_require(r->Ok_0.roots@, p) == spec_required(
                *project,
                use_test,
                additional@,
                p,
            )),
        r is Ok ==> (forall|p: Seq<char>, v: Version|
            #[trigger] reqs_allow(r->Ok_0.roots@, p, v) == spec_effective_allows(
                *project,
                use_test,
                additional@,
                p,
                v,
            )),
        r is Ok ==> spec_solution_offered(r->Ok_0.offers@, r->Ok_0.entries@),
        r is Ok ==> (forall|m: int|
            0 <= m < r->Ok_0.manifests@.len() ==> sol_has(
                r->Ok_0.entries@,
                (#[trigger] r->Ok_0.manifests@[m]).pkg@,
                r->Ok_0.manifests@[m].version,
            )),
        (exists|p: Seq<char>|
            #[trigger] spec_required(*project, use_test, additional@, p) && (forall|v: Version|
                !spec_effective_allows(*project, use_test, additional@, p, v))) ==> r is Err
            && r->Err_0 is NoSolution,
        (forall|p: Seq<char>| !(#[trigger] spec_required(*project, use_test, additional@, p)))
            ==> r is Ok,
{
    let roots = effective_roots(project, use_test, additional);
    proof {
        if forall|p: Seq<char>| !(#[trigger] spec_required(*project, use_test, additional@, p)) {
            if roots@.len() > 0 {
                let p0 = roots@[0].pkg@;
                assert(roots@[0].pkg@ == p0);
                assert(reqs_require(roots@, p0));
                assert(spec_required(*project, use_test, additional@, p0));
            }
            assert(roots@.len() == 0);
        }
        if exists|p: Seq<char>|
            #[trigger] spec_required(*project, use_test, additional@, p) && (forall|v: Version|
                !spec_effective_allows(*project, use_test, additional@, p, v)) {
            let p = choose|p: Seq<char>|
                #[trigger] spec_required(*project, use_test, additional@, p) && (forall|
                    v: Version,
                | !spec_effective_allows(*project, use_test, additional@, p, v));
            assert(reqs_require(roots@, p));
            let i = choose|i: int| 0 <= i < roots@.len() && (#[trigger] roots@[i]).pkg@ == p;
            assert forall|v: Version| !(#[trigger] roots@[i].constraint.spec_allows(v)) by {

                if roots@[i].constraint.spec_allows(v) {
                    assert forall|k: int|
                        0 <= k < roots@.len() && (#[trigger] roots@[k]).pkg@
                            == p implies roots@[k].constraint.spec_allows(v) by {
                        if k < i {
                            assert(roots@[k].pkg@ != roots@[i].pkg@);
                        } else if i < k {
                            assert(roots@[i].pkg@ != roots@[k].pkg@);
                        }
                    }
                    assert(reqs_allow(roots@, p, v));
                    assert(spec_effective_allows(*project, use_test, additional@, p, v));
                }
            }
            assert(req_empty(roots@[i]));
            assert(some_root_empty(roots@));
        }
    }
    let out = solve_roots(&roots, provider);
    proof {
        if out is Ok {
            let sol = out->Ok_0;
            assert forall|p: Seq<char>| #[trigger] reqs_require(sol.roots@, p) == reqs_require(
                roots@,
                p,
            ) by {
                if reqs_require(sol.roots@, p) {
                    let i = choose|i: int|
                        0 <= i < sol.roots@.len() && (#[trigger] sol.roots@[i]).pkg@ == p;
                    assert(roots@[i].pkg@ == p);
                }
                if reqs_require(roots@, p) {
                    let i = choose|i: int|
                        0 <= i < roots@.len() && (#[trigger] roots@[i]).pkg@ == p;
                    assert(sol.roots@[i].pkg@ == p);
                }
            }
            assert forall|p: Seq<char>, v: Version| #[trigger] reqs_allow(sol.roots@, p, v)
                == reqs_allow(roots@, p, v) by {
                if reqs_allow(sol.roots@, p, v) {
                    assert forall|i: int|
                        0 <= i < roots@.len() && (#[trigger] roots@[i]).pkg@
                            == p implies roots@[i].constraint.spec_allows(v) by {
                        assert(sol.roots@[i].pkg@ == p);
                        assert(sol.roots@[i].constraint.spec_allows(v));
                    }
                }
                if reqs_allow(roots@, p, v) {
                    assert forall|i: int|
                        0 <= i < sol.roots@.len() && (#[trigger] sol.roots@[i]).pkg@
                            == p implies sol.roots@[i].constraint.spec_allows(v) by {
                        assert(roots@[i].pkg@ == p);
                        assert(roots@[i].constraint.spec_allows(v));
                    }
                }
            }
        }
    }
    out
}

/// A pair of texts that parse as a package identifier and a canonical
/// constraint.
pub open spec fn parseable_pair(name: Seq<char>, text: Seq<char>) -> bool {
    valid_pkg(name) && exists|c: Constraint| c.wf() && text == spec_fmt_ranges(c@)
}

/// Parses caller-supplied additional constraints, given as package and
/// constraint text pairs. Succeeds exactly when every entry parses; any
/// entry that fails to parse is fatal and is reported with the offending
/// texts.
pub fn parse_additional(pairs: &Vec<(String, String)>) -> (r: Result<Vec<Dep>, SolveError>)
    ensures
        r is Ok ==> r->Ok_0@.len() == pairs@.len() && deps_wf(r->Ok_0@) && (forall|i: int|
            0 <= i < pairs@.len() ==> (#[trigger] r->Ok_0@[i]).pkg@ == pairs@[i].0@
                && r->Ok_0@[i].pkg.wf() && pairs@[i].1@ == spec_fmt_ranges(
                r->Ok_0@[i].constraint@,
            )),
        (forall|i: int|
            0 <= i < pairs@.len() ==> #[trigger] parseable_pair(pairs@[i].0@, pairs@[i].1@))
            ==> r is Ok,
        r is Err ==> exists|i: int|
            0 <= i < pairs@.len() && !(#[trigger] parseable_pair(pairs@[i].0@, pairs@[i].1@)),
{
    let n = pairs.len();
    let mut out: Vec<Dep> = Vec::new();
    let mut k: usize = 0;
    while k < n
        invariant
            0 <= k <= n,
            n == pairs@.len(),
            out@.len() == k,
            deps_wf(out@),
            forall|i: int|
                0 <= i < k ==> (#[trigger] out@[i]).pkg@ == pairs@[i].0@ && out@[i].pkg.wf()
                    && pairs@[i].1@ == spec_fmt_ranges(out@[i].constraint@),
        decreases n - k,
    {
        let pkg = match Pkg::parse(pairs[k].0.as_str()) {
            Ok(p) => p,
            Err(_) => {
                proof {
                    assert(!parseable_pair(pairs@[k as int].0@, pairs@[k as int].1@));
                }
                return Err(
                    SolveError::ConstraintParse {
                        package: pairs[k].0.clone(),
                        text: pairs[k].1.clone(),
                    },
                );
            },
        };
        let constraint = match parse_constraint(pairs[k].1.as_str()) {
            Ok(c) => c,
            Err(_) => {
                proof {
                    assert(!parseable_pair(pairs@[k as int].0@, pairs@[k as int].1@)) by {
                        if exists|c: Constraint|
                            c.wf() && pairs@[k as int].1@ == spec_fmt_ranges(c@) {
                            let c = choose|c: Constraint|
                                c.wf() && pairs@[k as int].1@ == spec_fmt_ranges(c@);
                            assert(fmt_hyp(pairs@[k as int].1@, c));
                        }
                    }
                }
                return Err(
                    SolveError::ConstraintParse {
                        package: pairs[k].0.clone(),
                        text: pairs[k].1.clone(),
                    },
                );
            },
        };
        out.push(Dep { pkg, constraint });
        k = k + 1;
    }
    Ok(out)
}

} // verus!
