//! A dependency solver for an `author/name` package ecosystem.
//!
//! The crate models semantic versions, range constraints over them, and
//! package manifests, and resolves a consistent set of package versions for
//! a project, asking a caller-supplied metadata provider for available
//! versions and manifests on demand.

use vstd::prelude::*;

mod constraint;
mod ctext;
mod error;
mod laws;
mod manifest;
mod num;
mod pkg;
mod solver;
mod version;

pub use constraint::Constraint;
pub use constraint::lemma_canonical_unique;
pub use constraint::Range;
pub use error::ParseError;
pub use laws::lemma_monotonic_tightening;
pub use manifest::Dep;
pub use manifest::effective_roots;
pub use manifest::merge_dep;
pub use manifest::reqs_allow;
pub use manifest::reqs_require;
pub use manifest::spec_effective_allows;
pub use manifest::spec_required;
pub use manifest::deps_wf;
pub use manifest::unique_deps;
pub use manifest::Manifest;
pub use pkg::Pkg;
pub use solver::Fetched;
pub use solver::Pick;
pub use solver::Provider;
pub use solver::ProviderError;
pub use solver::Solution;
pub use solver::SolveError;
pub use solver::check_solution;
pub use solver::parse_additional;
pub use solver::solve;
pub use solver::spec_describe;
pub use solver::spec_solution_offered;
pub use solver::offered_has;
pub use solver::solve_roots;
pub use solver::spec_solution_sound;
pub use solver::sol_has;
pub use solver::all_deps_met;
pub use solver::dep_met;
pub use solver::unique_picks;
pub use solver::evidence_has;
pub use solver::some_root_empty;
pub use version::Version;
pub use version::parse_version;
pub use version::parse_version_list;
pub use version::spec_kept_versions;
pub use version::spec_fmt_version;
pub use ctext::parse_constraint;
pub use ctext::spec_fmt_ranges;
