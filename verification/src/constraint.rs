//! Range constraints over versions: finite unions of half-open ranges
//! `[lo, hi)`, kept in a canonical sorted, gap-separated form.

use vstd::prelude::*;

use crate::version::Version;

verus! {

/// A half-open version range `[lo, hi)`.
#[derive(Clone, Copy, PartialEq, Eq, Structural, Debug)]
pub struct Range {
    pub lo: Version,
    pub hi: Version,
}

impl Range {
    /// `v` lies in `[lo, hi)`.
    pub open spec fn contains(self, v: Version) -> bool {
        self.lo.spec_le(v) && v.spec_lt(self.hi)
    }
}

/// A set of acceptable versions: a union of half-open ranges.
///
/// The representation is canonical: ranges are nonempty, sorted, and
/// separated by nonempty gaps, so that semantically equal constraints are
/// structurally equal values.
pub struct Constraint {
    ranges: Vec<Range>,
}

impl View for Constraint {
    type V = Seq<Range>;

    closed spec fn view(&self) -> Seq<Range> {
        self.ranges@
    }
}

/// `v` lies in one of the first `k` ranges of `c`.
pub open spec fn allows_prefix(c: Seq<Range>, k: int, v: Version) -> bool {
    exists|i: int| 0 <= i < k && (#[trigger] c[i]).contains(v)
}

/// `v` lies in the half-open hull `[lo, hi)`.
pub open spec fn in_hull(lo: Version, hi: Version, v: Version) -> bool {
    lo.spec_le(v) && v.spec_lt(hi)
}

/// `v` lies in one of the ranges `c[a..b]`.
pub open spec fn allows_span(c: Seq<Range>, a: int, b: int, v: Version) -> bool {
    exists|i: int| a <= i < b && (#[trigger] c[i]).contains(v)
}

/// Extending a span by one range adds exactly that range's versions.
proof fn lemma_allows_span_step(c: Seq<Range>, a: int, b: int, v: Version)
    requires
        0 <= a <= b < c.len(),
    ensures
        allows_span(c, a, b + 1, v) == (allows_span(c, a, b, v) || c[b].contains(v)),
{
    if allows_span(c, a, b + 1, v) {
        let i = choose|i: int| a <= i < b + 1 && (#[trigger] c[i]).contains(v);
        if i < b {
            assert(allows_span(c, a, b, v));
        } else {
            assert(c[b].contains(v));
        }
    }
    if allows_span(c, a, b, v) {
        let i = choose|i: int| a <= i < b && (#[trigger] c[i]).contains(v);
        assert(c[i].contains(v));
        assert(allows_span(c, a, b + 1, v));
    }
    if c[b].contains(v) {
        assert(allows_span(c, a, b + 1, v));
    }
}

/// In a canonical range list, starts are sorted and ranges do not overlap,
/// at any distance.
proof fn lemma_wf_sorted(c: Seq<Range>, i: int, j: int)
    requires
        forall|t: int| 0 <= t < c.len() ==> (#[trigger] c[t]).lo.spec_lt(c[t].hi),
        forall|t: int| 0 <= t && t + 1 < c.len() ==> (#[trigger] c[t]).hi.spec_lt(c[t + 1].lo),
        0 <= i <= j < c.len(),
    ensures
        c[i].lo.spec_le(c[j].lo),
        i < j ==> c[i].hi.spec_le(c[j].lo),
    decreases j - i,
{
    if i < j {
        lemma_wf_sorted(c, i + 1, j);
        assert(c[i].hi.spec_lt(c[i + 1].lo));
    }
}

/// Extending the prefix by one range adds exactly that range's versions.
proof fn lemma_allows_prefix_step(c: Seq<Range>, k: int, v: Version)
    requires
        0 <= k < c.len(),
    ensures
        allows_prefix(c, k + 1, v) == (allows_prefix(c, k, v) || c[k].contains(v)),
{
    if allows_prefix(c, k + 1, v) {
        let i = choose|i: int| 0 <= i < k + 1 && (#[trigger] c[i]).contains(v);
        if i < k {
            assert(allows_prefix(c, k, v));
        } else {
            assert(c[k].contains(v));
        }
    }
    if allows_prefix(c, k, v) {
        let i = choose|i: int| 0 <= i < k && (#[trigger] c[i]).contains(v);
        assert(c[i].contains(v));
        assert(allows_prefix(c, k + 1, v));
    }
    if c[k].contains(v) {
        assert(allows_prefix(c, k + 1, v));
    }
}

/// The full prefix is the whole constraint.
proof fn lemma_allows_prefix_full(c: Constraint, v: Version)
    ensures
        allows_prefix(c@, c@.len() as int, v) == c.spec_allows(v),
{
    if allows_prefix(c@, c@.len() as int, v) {
        let i = choose|i: int| 0 <= i < c@.len() && (#[trigger] c@[i]).contains(v);
        assert(c.spec_allows(v));
    }
    if c.spec_allows(v) {
        let i = choose|i: int| 0 <= i < c@.len() && (#[trigger] c@[i]).contains(v);
        assert(allows_prefix(c@, c@.len() as int, v));
    }
}

/// Splicing a merged hull between an untouched head and tail keeps the
/// canonical form and denotes exactly the union with the inserted range.
#[verifier::rlimit(100)]
proof fn lemma_insert_shape(pre: Seq<Range>, outs: Seq<Range>, r: Range, m: Range, k0: int, k2: int)
    requires
        0 <= k0 <= k2 <= pre.len(),
        outs == pre.take(k0) + seq![m] + pre.subrange(k2, pre.len() as int),
        forall|i: int| 0 <= i < pre.len() ==> (#[trigger] pre[i]).lo.spec_lt(pre[i].hi),
        forall|i: int|
            0 <= i && i + 1 < pre.len() ==> (#[trigger] pre[i]).hi.spec_lt(pre[i + 1].lo),
        forall|i: int| 0 <= i < k0 ==> (#[trigger] pre[i]).hi.spec_lt(r.lo),
        m.lo.spec_le(r.lo),
        r.hi.spec_le(m.hi),
        m.lo.spec_lt(m.hi),
        k0 > 0 ==> pre[k0 - 1].hi.spec_lt(m.lo),
        k2 < pre.len() ==> m.hi.spec_lt(pre[k2].lo),
        forall|v: Version|
            #[trigger] in_hull(m.lo, m.hi, v) == (r.contains(v) || allows_span(pre, k0, k2, v)),
    ensures
        forall|i: int| 0 <= i < outs.len() ==> (#[trigger] outs[i]).lo.spec_lt(outs[i].hi),
        forall|i: int|
            0 <= i && i + 1 < outs.len() ==> (#[trigger] outs[i]).hi.spec_lt(outs[i + 1].lo),
{
    let n = pre.len() as int;
    assert(outs.len() == k0 + 1 + (n - k2));
    assert forall|i: int| 0 <= i < outs.len() implies (#[trigger] outs[i]).lo.spec_lt(
        outs[i].hi,
    ) by {
        if i < k0 {
            assert(outs[i] == pre[i]);
        } else if i == k0 {
            assert(outs[i] == m);
        } else {
            assert(outs[i] == pre[i - 1 - k0 + k2]);
        }
    }
    assert forall|i: int|
        0 <= i && i + 1 < outs.len() implies (#[trigger] outs[i]).hi.spec_lt(outs[i + 1].lo) by {
        if i + 1 < k0 {
            assert(outs[i] == pre[i] && outs[i + 1] == pre[i + 1]);
        } else if i + 1 == k0 {
            assert(outs[i] == pre[i]);
            assert(pre[i].hi.spec_lt(r.lo));
        } else if i + 1 == k0 + 1 {
            assert(outs[i] == m);
            assert(outs[i + 1] == pre[k2]);
        } else {
            assert(outs[i] == pre[i - 1 - k0 + k2] && outs[i + 1] == pre[i - k0 + k2]);
        }
    }
}

/// The spliced result denotes exactly the union with the inserted range,
/// version by version.
#[verifier::rlimit(100)]
proof fn lemma_insert_sem(
    pre: Seq<Range>,
    outs: Seq<Range>,
    r: Range,
    m: Range,
    k0: int,
    k2: int,
    v: Version,
)
    requires
        0 <= k0 <= k2 <= pre.len(),
        outs == pre.take(k0) + seq![m] + pre.subrange(k2, pre.len() as int),
        forall|i: int| 0 <= i < pre.len() ==> (#[trigger] pre[i]).lo.spec_lt(pre[i].hi),
        forall|i: int|
            0 <= i && i + 1 < pre.len() ==> (#[trigger] pre[i]).hi.spec_lt(pre[i + 1].lo),
        forall|i: int| 0 <= i < k0 ==> (#[trigger] pre[i]).hi.spec_lt(r.lo),
        m.lo.spec_le(r.lo),
        r.hi.spec_le(m.hi),
        m.lo.spec_lt(m.hi),
        k0 > 0 ==> pre[k0 - 1].hi.spec_lt(m.lo),
        k2 < pre.len() ==> m.hi.spec_lt(pre[k2].lo),
        forall|w: Version|
            #[trigger] in_hull(m.lo, m.hi, w) == (r.contains(w) || allows_span(pre, k0, k2, w)),
    ensures
        allows_prefix(outs, outs.len() as int, v) == (allows_prefix(pre, pre.len() as int, v)
            || r.contains(v)),
{
    assert(outs.len() == k0 + 1 + (pre.len() - k2));
        if allows_prefix(outs, outs.len() as int, v) {
            let i = choose|i: int| 0 <= i < outs.len() && (#[trigger] outs[i]).contains(v);
            if i < k0 {
                assert(outs[i] == pre[i]);
                assert(pre[i].contains(v));
                assert(allows_prefix(pre, pre.len() as int, v));
            } else if i == k0 {
                assert(m.contains(v));
                assert(in_hull(m.lo, m.hi, v));
                if !r.contains(v) {
                    assert(allows_span(pre, k0, k2, v));
                    let ii = choose|ii: int| k0 <= ii < k2 && (#[trigger] pre[ii]).contains(v);
                    assert(pre[ii].contains(v));
                    assert(allows_prefix(pre, pre.len() as int, v));
                }
            } else {
                assert(outs[i] == pre[i - 1 - k0 + k2]);
                assert(pre[i - 1 - k0 + k2].contains(v));
                assert(allows_prefix(pre, pre.len() as int, v));
            }
        }
        if allows_prefix(pre, pre.len() as int, v) {
            let i = choose|i: int| 0 <= i < pre.len() && (#[trigger] pre[i]).contains(v);
            if i < k0 {
                assert(outs[i] == pre[i]);
                assert(outs[i].contains(v));
                assert(allows_prefix(outs, outs.len() as int, v));
            } else if i < k2 {
                assert(allows_span(pre, k0, k2, v));
                assert(in_hull(m.lo, m.hi, v));
                assert(outs[k0].contains(v));
                assert(allows_prefix(outs, outs.len() as int, v));
            } else {
                assert(outs[i + 1 - k2 + k0] == pre[i]);
                assert(outs[i + 1 - k2 + k0].contains(v));
                assert(allows_prefix(outs, outs.len() as int, v));
            }
        }
        if r.contains(v) {
            assert(in_hull(m.lo, m.hi, v));
            assert(outs[k0].contains(v));
            assert(allows_prefix(outs, outs.len() as int, v));
        }
    }

impl Constraint {
    /// The canonical-form invariant: every range is nonempty, and each ends
    /// strictly before the next begins.
    pub open spec fn wf(self) -> bool {
        &&& forall|i: int|
            0 <= i < self@.len() ==> (#[trigger] self@[i]).lo.spec_lt(self@[i].hi)
        &&& forall|i: int|
            0 <= i && i + 1 < self@.len() ==> (#[trigger] self@[i]).hi.spec_lt(self@[i + 1].lo)
    }

    /// The set this constraint denotes: `v` is acceptable.
    pub open spec fn spec_allows(self, v: Version) -> bool {
        exists|i: int| 0 <= i < self@.len() && (#[trigger] self@[i]).contains(v)
    }

    /// The constraint that no version satisfies.
    pub fn empty() -> (r: Constraint)
        ensures
            r.wf(),
            forall|v: Version| !r.spec_allows(v),
            r@.len() == 0,
    {
        Constraint { ranges: Vec::new() }
    }

    /// The constraint `[lo, hi)`; empty when `hi <= lo`.
    pub fn range(lo: &Version, hi: &Version) -> (r: Constraint)
        ensures
            r.wf(),
            forall|v: Version| r.spec_allows(v) == (lo.spec_le(v) && v.spec_lt(*hi)),
    {
        let mut ranges: Vec<Range> = Vec::new();
        if lo.lt(hi) {
            ranges.push(Range { lo: *lo, hi: *hi });
        }
        let out = Constraint { ranges };
        proof {
            assert forall|v: Version| out.spec_allows(v) == (lo.spec_le(v) && v.spec_lt(*hi)) by {
                if out@.len() > 0 && lo.spec_le(v) && v.spec_lt(*hi) {
                    assert(out@[0].contains(v));
                }
            }
        }
        out
    }

    /// Whether `v` satisfies this constraint.
    pub fn allows(&self, v: &Version) -> (r: bool)
        ensures
            r == self.spec_allows(*v),
    {
        let n = self.ranges.len();
        let mut k: usize = 0;
        while k < n
            invariant
                0 <= k <= n,
                n == self@.len(),
                forall|i: int| 0 <= i < k ==> !(#[trigger] self@[i]).contains(*v),
            decreases n - k,
        {
            if self.ranges[k].lo.le(v) && v.lt(&self.ranges[k].hi) {
                return true;
            }
            k = k + 1;
        }
        false
    }

    /// Whether no version at all satisfies this constraint.
    pub fn is_empty(&self) -> (r: bool)
        requires
            self.wf(),
        ensures
            r == (forall|v: Version| !self.spec_allows(v)),
            r == (self@.len() == 0),
    {
        if self.ranges.len() == 0 {
            true
        } else {
            proof {
                let w = self@[0].lo;
                assert(self@[0].lo.spec_lt(self@[0].hi));
                assert(self@[0].contains(w));
                assert(self.spec_allows(w));
            }
            false
        }
    }

    /// A copy of this constraint.
    pub fn duplicate(&self) -> (r: Constraint)
        ensures
            r@ == self@,
    {
        let n = self.ranges.len();
        let mut ranges: Vec<Range> = Vec::new();
        let mut k: usize = 0;
        while k < n
            invariant
                0 <= k <= n,
                n == self@.len(),
                ranges@ == self@.take(k as int),
            decreases n - k,
        {
            ranges.push(self.ranges[k]);
            proof {
                assert(ranges@ =~= self@.take(k + 1));
            }
            k = k + 1;
        }
        proof {
            assert(ranges@ =~= self@);
        }
        Constraint { ranges }
    }

    /// The ranges of this constraint, in order, as plain values.
    pub fn parts(&self) -> (r: Vec<Range>)
        ensures
            r@ == self@,
    {
        self.duplicate().ranges
    }

    /// Adds one nonempty range, merging wherever it overlaps or touches
    /// existing ranges.
    pub fn insert(&self, r: &Range) -> (out: Constraint)
        requires
            self.wf(),
            r.lo.spec_lt(r.hi),
        ensures
            out.wf(),
            forall|v: Version| out.spec_allows(v) == (self.spec_allows(v) || r.contains(v)),
    {
        self.insert_range(*r)
    }

    /// Wraps a range list already known to be in canonical form.
    pub(crate) fn from_canonical_parts(ranges: Vec<Range>) -> (r: Constraint)
        requires
            forall|i: int|
                0 <= i < ranges@.len() ==> (#[trigger] ranges@[i]).lo.spec_lt(ranges@[i].hi),
            forall|i: int|
                0 <= i && i + 1 < ranges@.len() ==> (#[trigger] ranges@[i]).hi.spec_lt(
                    ranges@[i + 1].lo,
                ),
        ensures
            r@ == ranges@,
            r.wf(),
    {
        Constraint { ranges }
    }

    /// Rebuilds this constraint through the canonical constructors, keeping
    /// its accepted version set exactly, whatever form it arrived in.
    pub fn canonical(&self) -> (out: Constraint)
        ensures
            out.wf(),
            forall|v: Version| out.spec_allows(v) == self.spec_allows(v),
    {
        let items = self.parts();
        let n = items.len();
        let mut out = Constraint::empty();
        let mut k: usize = 0;
        while k < n
            invariant
                0 <= k <= n,
                n == self@.len(),
                items@ == self@,
                out.wf(),
                forall|v: Version|
                    #[trigger] out.spec_allows(v) == allows_prefix(self@, k as int, v),
            decreases n - k,
        {
            let rg = items[k];
            let ghost prev = out;
            if rg.lo.lt(&rg.hi) {
                let cur = out;
                out = cur.insert_range(rg);
            }
            proof {
                assert forall|v: Version| #[trigger] out.spec_allows(v) == allows_prefix(
                    self@,
                    k + 1,
                    v,
                ) by {
                    lemma_allows_prefix_step(self@, k as int, v);
                    if !rg.lo.spec_lt(rg.hi) {
                        assert(!self@[k as int].contains(v));
                    }
                }
            }
            k = k + 1;
        }
        proof {
            assert forall|v: Version| out.spec_allows(v) == self.spec_allows(v) by {
                lemma_allows_prefix_full(*self, v);
            }
        }
        out
    }

    /// Structural (and, the form being canonical, semantic) equality.
    pub fn is_same(&self, other: &Constraint) -> (r: bool)
        ensures
            r == (self@ == other@),
    {
        let n = self.ranges.len();
        if n != other.ranges.len() {
            proof {
                assert(self@.len() != other@.len());
            }
            return false;
        }
        let mut k: usize = 0;
        while k < n
            invariant
                0 <= k <= n,
                n == self@.len(),
                n == other@.len(),
                forall|i: int| 0 <= i < k ==> self@[i] == other@[i],
            decreases n - k,
        {
            if !(self.ranges[k] == other.ranges[k]) {
                proof {
                    assert(self@[k as int] != other@[k as int]);
                }
                return false;
            }
            k = k + 1;
        }
        proof {
            assert(self@ =~= other@);
        }
        true
    }

    /// Adds one nonempty range to a canonical constraint, merging wherever
    /// it overlaps or touches existing ranges.
    #[verifier::loop_isolation(false)]
    #[verifier::rlimit(100)]
    fn insert_range(&self, r: Range) -> (out: Constraint)
        requires
            self.wf(),
            r.lo.spec_lt(r.hi),
        ensures
            out.wf(),
            forall|v: Version| out.spec_allows(v) == (self.spec_allows(v) || r.contains(v)),
    {
        let n = self.ranges.len();
        let mut ranges: Vec<Range> = Vec::new();
        let mut k: usize = 0;
        // Phase one: ranges that end strictly before `r` starts, with a gap.
        while k < n && self.ranges[k].hi.lt(&r.lo)
            invariant
                0 <= k <= n,
                ranges@ == self@.take(k as int),
                forall|i: int| 0 <= i < k ==> (#[trigger] self@[i]).hi.spec_lt(r.lo),
            decreases n - k,
        {
            ranges.push(self.ranges[k]);
            proof {
                assert(ranges@ =~= self@.take(k + 1));
            }
            k = k + 1;
        }
        let ghost k0 = k as int;
        // Phase two: merge everything that overlaps or touches `r`'s hull.
        let mut lo = r.lo;
        let mut hi = r.hi;
        while k < n && self.ranges[k].lo.le(&hi)
            invariant
                k0 <= k <= n,
                lo.spec_le(r.lo),
                r.hi.spec_le(hi),
                lo.spec_lt(hi),
                k0 < n ==> r.lo.spec_le(self@[k0].hi),
                k == k0 ==> lo == r.lo && hi == r.hi,
                k > k0 ==> self@[k0].lo.spec_le(lo) || r.lo == lo,
                forall|v: Version|
                    #[trigger] in_hull(lo, hi, v) == (r.contains(v) || allows_span(
                        self@,
                        k0,
                        k as int,
                        v,
                    )),
            decreases n - k,
        {
            let c = self.ranges[k];
            proof {
                if k > k0 {
                    lemma_wf_sorted(self@, k0, k as int);
                    // Starts only move up, so the hull's start is final.
                    assert(lo.spec_le(c.lo));
                }
            }
            let ghost old_lo = lo;
            let ghost old_hi = hi;
            if c.lo.lt(&lo) {
                lo = c.lo;
            }
            if hi.lt(&c.hi) {
                hi = c.hi;
            }
            proof {
                assert forall|v: Version| #[trigger] in_hull(lo, hi, v) == (r.contains(v)
                    || allows_span(self@, k0, k + 1, v)) by {
                    lemma_allows_span_step(self@, k0, k as int, v);
                    if in_hull(lo, hi, v) {
                        if in_hull(old_lo, old_hi, v) {
                        } else if v.spec_lt(old_lo) {
                            // Only the first merged range can extend downward,
                            // and it reaches back to the start of `r`.
                            assert(k == k0);
                            assert(old_lo == r.lo);
                            assert(c.lo.spec_le(v));
                            assert(r.lo.spec_le(c.hi));
                            assert(self@[k as int].contains(v));
                        } else {
                            // The hull grew upward into this range.
                            assert(old_hi.spec_le(v));
                            assert(c.lo.spec_le(old_hi));
                            assert(v.spec_lt(c.hi));
                            assert(self@[k as int].contains(v));
                        }
                    }
                    if in_hull(old_lo, old_hi, v) || self@[k as int].contains(v) {
                        assert(in_hull(lo, hi, v));
                    }
                }
            }
            k = k + 1;
        }
        let ghost k2 = k as int;
        let m = Range { lo, hi };
        ranges.push(m);
        // Phase three: the untouched tail.
        while k < n
            invariant
                k2 <= k <= n,
                ranges@ == self@.take(k0) + seq![m] + self@.subrange(k2, k as int),
            decreases n - k,
        {
            ranges.push(self.ranges[k]);
            proof {
                assert(ranges@ =~= self@.take(k0) + seq![m] + self@.subrange(k2, k + 1));
            }
            k = k + 1;
        }
        let out = Constraint { ranges };
        proof {
            assert(ranges@ =~= self@.take(k0) + seq![m] + self@.subrange(k2, n as int));
            if k2 < n {
                assert(hi.spec_lt(self@[k2].lo));
            }
            if k0 > 0 {
                assert(self@[k0 - 1].hi.spec_lt(r.lo));
                if k2 > k0 {
                    assert(self@[k0 - 1].hi.spec_lt(self@[k0].lo));
                }
                assert(self@[k0 - 1].hi.spec_lt(m.lo));
            }
            lemma_insert_shape(self@, out@, r, m, k0, k2);
            assert forall|v: Version| out.spec_allows(v) == (self.spec_allows(v) || r.contains(
                v,
            )) by {
                lemma_insert_sem(self@, out@, r, m, k0, k2, v);
                lemma_allows_prefix_full(out, v);
                lemma_allows_prefix_full(*self, v);
            }
        }
        out
    }

    /// The constraint satisfied by exactly the versions both sides allow.
    pub fn intersect(&self, other: &Constraint) -> (out: Constraint)
        requires
            self.wf(),
            other.wf(),
        ensures
            out.wf(),
            forall|v: Version|
                out.spec_allows(v) == (self.spec_allows(v) && other.spec_allows(v)),
    {
        let na = self.ranges.len();
        let nb = other.ranges.len();
        let mut out = Constraint::empty();
        let mut i: usize = 0;
        while i < na
            invariant
                0 <= i <= na,
                na == self@.len(),
                nb == other@.len(),
                self.wf(),
                other.wf(),
                out.wf(),
                forall|v: Version|
                    #[trigger] out.spec_allows(v) == (allows_prefix(self@, i as int, v)
                        && other.spec_allows(v)),
            decreases na - i,
        {
            let mut j: usize = 0;
            while j < nb
                invariant
                    0 <= i < na,
                    0 <= j <= nb,
                    na == self@.len(),
                    nb == other@.len(),
                    self.wf(),
                    other.wf(),
                    out.wf(),
                    forall|v: Version|
                        #[trigger] out.spec_allows(v) == (allows_prefix(self@, i as int, v)
                            && other.spec_allows(v) || (self@[i as int].contains(v)
                            && allows_prefix(other@, j as int, v))),
                decreases nb - j,
            {
                let a = self.ranges[i];
                let b = other.ranges[j];
                let lo = if a.lo.lt(&b.lo) {
                    b.lo
                } else {
                    a.lo
                };
                let hi = if a.hi.lt(&b.hi) {
                    a.hi
                } else {
                    b.hi
                };
                let ghost prev = out;
                if lo.lt(&hi) {
                    let cur = out;
                    out = cur.insert_range(Range { lo, hi });
                }
                proof {
                    assert forall|v: Version| #[trigger] out.spec_allows(v) == (allows_prefix(
                        self@,
                        i as int,
                        v,
                    ) && other.spec_allows(v) || (self@[i as int].contains(v) && allows_prefix(
                        other@,
                        j + 1,
                        v,
                    ))) by {
                        lemma_allows_prefix_step(other@, j as int, v);
                        assert((Range { lo, hi }).contains(v) == (self@[i as int].contains(v)
                            && other@[j as int].contains(v)));
                        if !(lo.spec_lt(hi)) {
                            assert(out.spec_allows(v) == prev.spec_allows(v));
                        }
                    }
                }
                j = j + 1;
            }
            proof {
                assert forall|v: Version| #[trigger] out.spec_allows(v) == (allows_prefix(
                    self@,
                    i + 1,
                    v,
                ) && other.spec_allows(v)) by {
                    lemma_allows_prefix_step(self@, i as int, v);
                    lemma_allows_prefix_full(*other, v);
                }
            }
            i = i + 1;
        }
        proof {
            assert forall|v: Version| out.spec_allows(v) == (self.spec_allows(v)
                && other.spec_allows(v)) by {
                lemma_allows_prefix_full(*self, v);
                assert(out.spec_allows(v) == (allows_prefix(self@, na as int, v)
                    && other.spec_allows(v)));
            }
        }
        out
    }

    /// The constraint satisfied by exactly the versions either side allows.
    pub fn union(&self, other: &Constraint) -> (out: Constraint)
        requires
            self.wf(),
            other.wf(),
        ensures
            out.wf(),
            forall|v: Version|
                out.spec_allows(v) == (self.spec_allows(v) || other.spec_allows(v)),
    {
        let nb = other.ranges.len();
        let mut out = Constraint { ranges: self.duplicate().ranges };
        let mut j: usize = 0;
        proof {
            assert(out@ == self@);
        }
        while j < nb
            invariant
                0 <= j <= nb,
                nb == other@.len(),
                self.wf(),
                other.wf(),
                out.wf(),
                forall|v: Version|
                    #[trigger] out.spec_allows(v) == (self.spec_allows(v) || allows_prefix(
                        other@,
                        j as int,
                        v,
                    )),
            decreases nb - j,
        {
            let cur = out;
            out = cur.insert_range(other.ranges[j]);
            proof {
                assert forall|v: Version| #[trigger] out.spec_allows(v) == (self.spec_allows(v)
                    || allows_prefix(other@, j + 1, v)) by {
                    lemma_allows_prefix_step(other@, j as int, v);
                }
            }
            j = j + 1;
        }
        proof {
            assert forall|v: Version| out.spec_allows(v) == (self.spec_allows(v)
                || other.spec_allows(v)) by {
                lemma_allows_prefix_full(*other, v);
            }
        }
        out
    }
}

/// The two canonical-form conditions, over a bare range list.
pub open spec fn wf_seq(rs: Seq<Range>) -> bool {
    &&& forall|i: int| 0 <= i < rs.len() ==> (#[trigger] rs[i]).lo.spec_lt(rs[i].hi)
    &&& forall|i: int| 0 <= i && i + 1 < rs.len() ==> (#[trigger] rs[i]).hi.spec_lt(rs[i + 1].lo)
}

/// Some range of the list contains `v`.
pub open spec fn seq_allows(rs: Seq<Range>, v: Version) -> bool {
    exists|i: int| 0 <= i < rs.len() && (#[trigger] rs[i]).contains(v)
}

/// What the tail of a canonical list allows: everything the whole list
/// allows except what its first range covers.
proof fn lemma_tail_allows(rs: Seq<Range>, v: Version)
    requires
        wf_seq(rs),
        rs.len() >= 1,
    ensures
        seq_allows(rs.drop_first(), v) == (seq_allows(rs, v) && !rs[0].contains(v)),
{
    let t = rs.drop_first();
    if seq_allows(t, v) {
        let i = choose|i: int| 0 <= i < t.len() && (#[trigger] t[i]).contains(v);
        assert(t[i] == rs[i + 1]);
        assert(rs[i + 1].contains(v));
        assert(seq_allows(rs, v));
        if rs[0].contains(v) {
            lemma_wf_sorted(rs, 0, i + 1);
        }
    }
    if seq_allows(rs, v) && !rs[0].contains(v) {
        let i = choose|i: int| 0 <= i < rs.len() && (#[trigger] rs[i]).contains(v);
        assert(i > 0);
        assert(t[i - 1] == rs[i]);
        assert(t[i - 1].contains(v));
        assert(seq_allows(t, v));
    }
}

/// A canonical list stays canonical when its first range is removed.
proof fn lemma_wf_drop_first(rs: Seq<Range>)
    requires
        wf_seq(rs),
        rs.len() >= 1,
    ensures
        wf_seq(rs.drop_first()),
{
    let t = rs.drop_first();
    assert forall|i: int| 0 <= i < t.len() implies (#[trigger] t[i]).lo.spec_lt(t[i].hi) by {
        assert(t[i] == rs[i + 1]);
    }
    assert forall|i: int|
        0 <= i && i + 1 < t.len() implies (#[trigger] t[i]).hi.spec_lt(t[i + 1].lo) by {
        assert(t[i] == rs[i + 1] && t[i + 1] == rs[i + 2]);
    }
}

/// In a canonical list, every allowed version lies at or above the start
/// of the first range, so that start is allowed and minimal.
#[verifier::rlimit(100)]
proof fn lemma_first_lo_min(a: Seq<Range>, v: Version)
    requires
        wf_seq(a),
        seq_allows(a, v),
    ensures
        a.len() >= 1,
        a[0].lo.spec_le(v),
{
    let i = choose|i: int| 0 <= i < a.len() && (#[trigger] a[i]).contains(v);
    lemma_wf_sorted(a, 0, i);
}

/// Two canonical lists allowing the same versions begin with the same
/// range.
#[verifier::rlimit(100)]
proof fn lemma_first_equal(a: Seq<Range>, b: Seq<Range>)
    requires
        wf_seq(a),
        wf_seq(b),
        forall|v: Version| seq_allows(a, v) == seq_allows(b, v),
        a.len() >= 1,
        b.len() >= 1,
    ensures
        a[0] == b[0],
{
    let ra = a[0];
    let rb = b[0];
    assert(ra.contains(ra.lo) && seq_allows(a, ra.lo));
    assert(rb.contains(rb.lo) && seq_allows(b, rb.lo));
    // The starts coincide: each is the least allowed version of its side.
    assert(rb.lo.spec_le(ra.lo)) by {
        assert(seq_allows(b, ra.lo));
        lemma_first_lo_min(b, ra.lo);
    }
    assert(ra.lo.spec_le(rb.lo)) by {
        assert(seq_allows(a, rb.lo));
        lemma_first_lo_min(a, rb.lo);
    }
    // The ends coincide: otherwise the lesser end itself would be allowed
    // on one side, yet fall in the gap after the first range of the other.
    if ra.hi.spec_lt(rb.hi) {
        assert(rb.contains(ra.hi) && seq_allows(b, ra.hi));
        assert(seq_allows(a, ra.hi));
        let i = choose|i: int| 0 <= i < a.len() && (#[trigger] a[i]).contains(ra.hi);
        assert(i > 0);
        lemma_wf_sorted(a, 1, i);
        assert(a[0].hi.spec_lt(a[1].lo));
    }
    if rb.hi.spec_lt(ra.hi) {
        assert(ra.contains(rb.hi) && seq_allows(a, rb.hi));
        assert(seq_allows(b, rb.hi));
        let i = choose|i: int| 0 <= i < b.len() && (#[trigger] b[i]).contains(rb.hi);
        assert(i > 0);
        lemma_wf_sorted(b, 1, i);
        assert(b[0].hi.spec_lt(b[1].lo));
    }
}

/// The canonical form is unique: two canonical lists that allow exactly
/// the same versions are equal, range for range.
#[verifier::rlimit(100)]
proof fn lemma_canonical_unique_seq(a: Seq<Range>, b: Seq<Range>)
    requires
        wf_seq(a),
        wf_seq(b),
        forall|v: Version| seq_allows(a, v) == seq_allows(b, v),
    ensures
        a == b,
    decreases a.len(),
{
    if a.len() == 0 {
        if b.len() >= 1 {
            assert(b[0].contains(b[0].lo));
            assert(seq_allows(b, b[0].lo));
            assert(seq_allows(a, b[0].lo));
        }
        assert(a =~= b);
    } else if b.len() == 0 {
        assert(a[0].contains(a[0].lo));
        assert(seq_allows(a, a[0].lo));
        assert(seq_allows(b, a[0].lo));
        assert(a =~= b);
    } else {
        lemma_first_equal(a, b);
        let ta = a.drop_first();
        let tb = b.drop_first();
        assert forall|v: Version| seq_allows(ta, v) == seq_allows(tb, v) by {
            lemma_tail_allows(a, v);
            lemma_tail_allows(b, v);
        }
        lemma_wf_drop_first(a);
        lemma_wf_drop_first(b);
        lemma_canonical_unique_seq(ta, tb);
        assert(a =~= b) by {
            assert(forall|i: int| 1 <= i < a.len() ==> a[i] == ta[i - 1]);
            assert(forall|i: int| 1 <= i < b.len() ==> b[i] == tb[i - 1]);
        }
    }
}

/// Two canonical constraints that allow the same versions are equal: the
/// canonical form makes structural equality stand in for semantic
/// equality, so deduplication by comparison is exact.
pub proof fn lemma_canonical_unique(a: Constraint, b: Constraint)
    requires
        a.wf(),
        b.wf(),
        forall|v: Version| a.spec_allows(v) == b.spec_allows(v),
    ensures
        a@ == b@,
{
    assert forall|v: Version| seq_allows(a@, v) == seq_allows(b@, v) by {
        if seq_allows(a@, v) {
            let i = choose|i: int| 0 <= i < a@.len() && (#[trigger] a@[i]).contains(v);
            assert(a.spec_allows(v));
        }
        if seq_allows(b@, v) {
            let i = choose|i: int| 0 <= i < b@.len() && (#[trigger] b@[i]).contains(v);
            assert(b.spec_allows(v));
        }
        if a.spec_allows(v) {
            let i = choose|i: int| 0 <= i < a@.len() && (#[trigger] a@[i]).contains(v);
            assert(seq_allows(a@, v));
        }
        if b.spec_allows(v) {
            let i = choose|i: int| 0 <= i < b@.len() && (#[trigger] b@[i]).contains(v);
            assert(seq_allows(b@, v));
        }
    }
    lemma_canonical_unique_seq(a@, b@);
}

} // verus!
