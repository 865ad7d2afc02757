//! Canonical text form of constraints: ranges written
//! `a.b.c <= v < x.y.z`, joined by ` || `; the empty constraint is the
//! empty string.

use vstd::prelude::*;
use vstd::string::StrSliceExecFns;
use vstd::string::StringExecFns;

use crate::constraint::Constraint;
use crate::constraint::Range;
use crate::error::ParseError;
use crate::num::is_digit_char;
use crate::version::Version;
use crate::version::append_version;
use crate::version::scan_version_at;
use crate::version::spec_fmt_version;
use crate::version::str_eq_string;
use crate::version::version_run_at;

verus! {

/// The text between the two versions of a range.
pub open spec fn mid_sep() -> Seq<char> {
    seq![' ', '<', '=', ' ', 'v', ' ', '<', ' ']
}

/// The text between two ranges.
pub open spec fn or_sep() -> Seq<char> {
    seq![' ', '|', '|', ' ']
}

/// The canonical text of one range.
pub open spec fn spec_fmt_range(r: Range) -> Seq<char> {
    spec_fmt_version(r.lo) + mid_sep() + spec_fmt_version(r.hi)
}

/// The canonical text of a list of ranges.
pub open spec fn spec_fmt_ranges(rs: Seq<Range>) -> Seq<char>
    decreases rs.len(),
{
    if rs.len() == 0 {
        Seq::empty()
    } else if rs.len() == 1 {
        spec_fmt_range(rs[0])
    } else {
        spec_fmt_range(rs[0]) + or_sep() + spec_fmt_ranges(rs.drop_first())
    }
}

/// Appending one more range to the list appends a separator and its text.
proof fn lemma_fmt_ranges_push(rs: Seq<Range>, r: Range)
    ensures
        spec_fmt_ranges(rs.push(r)) == if rs.len() == 0 {
            spec_fmt_range(r)
        } else {
            spec_fmt_ranges(rs) + or_sep() + spec_fmt_range(r)
        },
    decreases rs.len(),
{
    if rs.len() == 0 {
        assert(rs.push(r).len() == 1);
        assert(rs.push(r)[0] == r);
    } else {
        assert(rs.push(r).drop_first() =~= rs.drop_first().push(r));
        lemma_fmt_ranges_push(rs.drop_first(), r);
        if rs.len() == 1 {
            assert(spec_fmt_ranges(rs) == spec_fmt_range(rs[0]));
            assert(rs.push(r)[0] == rs[0]);
        } else {
            assert(rs.push(r)[0] == rs[0]);
            assert(spec_fmt_range(rs[0]) + or_sep() + (spec_fmt_ranges(rs.drop_first()) + or_sep()
                + spec_fmt_range(r)) =~= (spec_fmt_range(rs[0]) + or_sep() + spec_fmt_ranges(
                rs.drop_first(),
            )) + or_sep() + spec_fmt_range(r));
        }
    }
}

/// Appends ` <= v < ` to `out`.
fn append_mid_sep(out: &mut String)
    ensures
        final(out)@ == old(out)@ + mid_sep(),
{
    proof {
        reveal_strlit(" <= v < ");
        assert(" <= v < "@ =~= mid_sep());
    }
    out.append(" <= v < ");
}

/// Appends ` || ` to `out`.
fn append_or_sep(out: &mut String)
    ensures
        final(out)@ == old(out)@ + or_sep(),
{
    proof {
        reveal_strlit(" || ");
        assert(" || "@ =~= or_sep());
    }
    out.append(" || ");
}

impl Constraint {
    /// Renders this constraint in its canonical text form.
    pub fn to_text(&self) -> (r: String)
        ensures
            r@ == spec_fmt_ranges(self@),
    {
        let items = self.parts();
        let n = items.len();
        let mut out = String::new();
        let mut k: usize = 0;
        while k < n
            invariant
                0 <= k <= n,
                items@ == self@,
                n == self@.len(),
                out@ == spec_fmt_ranges(self@.take(k as int)),
            decreases n - k,
        {
            if k > 0 {
                append_or_sep(&mut out);
            }
            let rg = items[k];
            append_version(&mut out, &rg.lo);
            append_mid_sep(&mut out);
            append_version(&mut out, &rg.hi);
            proof {
                lemma_fmt_ranges_push(self@.take(k as int), self@[k as int]);
                assert(self@.take(k as int).push(self@[k as int]) =~= self@.take(k + 1));
                assert(out@ =~= spec_fmt_ranges(self@.take(k + 1)));
            }
            k = k + 1;
        }
        proof {
            assert(self@.take(n as int) =~= self@);
        }
        out
    }
}

/// Scans one range (`version <= v < version`) starting at `i`.
///
/// Whenever the canonical text of some range `rg` starts at `i` (not
/// followed by a digit), the scan finds exactly that range.
pub fn scan_range_at(s: &str, i: usize) -> (r: Option<(Range, usize)>)
    requires
        i <= s@.len(),
    ensures
        r is Some ==> i < r->Some_0.1 <= s@.len(),
        forall|rg: Range, j: int| range_run_at(s@, i as int, rg, j) ==> r == Some(
            (rg, j as usize),
        ),
{
    let len = s.unicode_len();
    let r1 = scan_version_at(s, i);
    proof {
        assert(!is_digit_char(' '));
        assert forall|rg: Range, j: int| range_run_at(s@, i as int, rg, j) implies version_run_at(
            s@,
            i as int,
            rg.lo,
            i + spec_fmt_version(rg.lo).len(),
        ) && s@.subrange(
            i + spec_fmt_version(rg.lo).len(),
            i + spec_fmt_version(rg.lo).len() + 8,
        ) == mid_sep() by {
            let whole = spec_fmt_range(rg);
            let la = spec_fmt_version(rg.lo).len() as int;
            let lb = spec_fmt_version(rg.hi).len() as int;
            assert(whole.len() == la + 8 + lb);
            assert(s@.subrange(i as int, j).len() == j - i);
            assert(s@.subrange(i as int, i + la) =~= spec_fmt_version(rg.lo)) by {
                assert forall|k: int| 0 <= k < la implies s@.subrange(i as int, i + la)[k]
                    == spec_fmt_version(rg.lo)[k] by {
                    assert(s@.subrange(i as int, j)[k] == s@[i + k]);
                    assert(s@.subrange(i as int, i + la)[k] == s@[i + k]);
                }
            }
            assert(s@.subrange(i + la, i + la + 8) =~= mid_sep()) by {
                assert forall|k: int| 0 <= k < 8 implies s@.subrange(i + la, i + la + 8)[k]
                    == mid_sep()[k] by {
                    assert(s@.subrange(i as int, j)[la + k] == s@[i + la + k]);
                    assert(s@.subrange(i + la, i + la + 8)[k] == s@[i + la + k]);
                }
            }
            assert(s@[i + la] == mid_sep()[0]);
        }
    }
    let (lo, p1) = match r1 {
        Some(x) => x,
        None => {
            return None;
        },
    };
    if !has_mid_sep(s, p1) {
        proof {
            assert forall|rg: Range, j: int| !range_run_at(s@, i as int, rg, j) by {
                if range_run_at(s@, i as int, rg, j) {
                    let la = spec_fmt_version(rg.lo).len() as int;
                    let lb = spec_fmt_version(rg.hi).len() as int;
                    assert(spec_fmt_range(rg).len() == la + 8 + lb);
                    assert(s@.subrange(i as int, j).len() == j - i);
                    assert(version_run_at(s@, i as int, rg.lo, i + la));
                    assert(p1 == i + la);
                    assert(p1 + 8 <= s@.len());
                    assert(s@.subrange(p1 as int, p1 + 8) == mid_sep());
                }
            }
        }
        return None;
    }
    let r2 = scan_version_at(s, p1 + 8);
    proof {
        assert forall|rg: Range, j: int| range_run_at(s@, i as int, rg, j) implies version_run_at(
            s@,
            p1 + 8,
            rg.hi,
            j,
        ) by {
            let whole = spec_fmt_range(rg);
            let la = spec_fmt_version(rg.lo).len() as int;
            let lb = spec_fmt_version(rg.hi).len() as int;
            assert(whole.len() == la + 8 + lb);
            assert(s@.subrange(i as int, j).len() == j - i);
            assert(version_run_at(s@, i as int, rg.lo, i + la));
            assert(p1 == i + la);
            assert(s@.subrange(p1 + 8, j) =~= spec_fmt_version(rg.hi)) by {
                assert forall|k: int| 0 <= k < lb implies s@.subrange(p1 + 8, j)[k]
                    == spec_fmt_version(rg.hi)[k] by {
                    assert(s@.subrange(i as int, j)[la + 8 + k] == s@[i + la + 8 + k]);
                    assert(s@.subrange(p1 + 8, j)[k] == s@[p1 + 8 + k]);
                }
            }
        }
    }
    let (hi, p2) = match r2 {
        Some(x) => x,
        None => {
            return None;
        },
    };
    Some((Range { lo, hi }, p2))
}

/// The canonical text of `rg` occupies `[i, j)` in `s`, ending at the end of
/// the text or before a non-digit.
pub open spec fn range_run_at(s: Seq<char>, i: int, rg: Range, j: int) -> bool {
    &&& 0 <= i <= j <= s.len()
    &&& s.subrange(i, j) == spec_fmt_range(rg)
    &&& (j == s.len() || !is_digit_char(s[j]))
}


/// A rendered version is at least five characters.
proof fn lemma_fmt_version_len(v: Version)
    ensures
        spec_fmt_version(v).len() >= 5,
{
    crate::num::lemma_dec_digits_wf(v.major as nat);
    crate::num::lemma_dec_digits_wf(v.minor as nat);
    crate::num::lemma_dec_digits_wf(v.patch as nat);
}

/// A rendered range is at least eighteen characters.
proof fn lemma_fmt_range_len(rg: Range)
    ensures
        spec_fmt_range(rg).len() >= 18,
{
    lemma_fmt_version_len(rg.lo);
    lemma_fmt_version_len(rg.hi);
}

/// A rendered nonempty range list is nonempty text.
proof fn lemma_fmt_ranges_len(rs: Seq<Range>)
    requires
        rs.len() >= 1,
    ensures
        spec_fmt_ranges(rs).len() >= 18,
{
    lemma_fmt_range_len(rs[0]);
}

/// How the rendering of a nonempty range list decomposes at `pos` in `s`:
/// its first range forms a complete run there, and either the text ends
/// with it, or the ` || ` separator and the rendering of the remaining
/// ranges follow.
proof fn lemma_tail_decomp(s: Seq<char>, pos: int, tail: Seq<Range>)
    requires
        0 <= pos <= s.len(),
        tail.len() >= 1,
        s.skip(pos) == spec_fmt_ranges(tail),
    ensures
        range_run_at(s, pos, tail[0], pos + spec_fmt_range(tail[0]).len()),
        tail.len() == 1 ==> pos + spec_fmt_range(tail[0]).len() == s.len(),
        tail.len() > 1 ==> pos + spec_fmt_range(tail[0]).len() + 4 < s.len(),
        tail.len() > 1 ==> s.subrange(
            pos + spec_fmt_range(tail[0]).len(),
            pos + spec_fmt_range(tail[0]).len() + 4,
        ) == or_sep(),
        tail.len() > 1 ==> s.skip(pos + spec_fmt_range(tail[0]).len() + 4) == spec_fmt_ranges(
            tail.skip(1),
        ),
{
    let l0 = spec_fmt_range(tail[0]).len() as int;
    assert(!is_digit_char(' '));
    assert(forall|i: int| 0 <= i < s.len() - pos ==> #[trigger] s.skip(pos)[i] == s[pos + i]);
    if tail.len() == 1 {
        assert(spec_fmt_ranges(tail) == spec_fmt_range(tail[0]));
        assert(s.len() == pos + l0);
        assert(s.subrange(pos, pos + l0) =~= spec_fmt_range(tail[0])) by {
            assert forall|i: int| 0 <= i < l0 implies s.subrange(pos, pos + l0)[i]
                == spec_fmt_range(tail[0])[i] by {
                assert(s.subrange(pos, pos + l0)[i] == s[pos + i]);
                assert(s.skip(pos)[i] == s[pos + i]);
            }
        }
    } else {
        assert(tail.drop_first() =~= tail.skip(1));
        assert(spec_fmt_ranges(tail) == spec_fmt_range(tail[0]) + or_sep() + spec_fmt_ranges(
            tail.skip(1),
        ));
        lemma_fmt_ranges_len(tail.skip(1));
        let rest = spec_fmt_ranges(tail.skip(1));
        assert(s.skip(pos).len() == s.len() - pos);
        assert((spec_fmt_range(tail[0]) + or_sep()).len() == l0 + 4);
        assert(spec_fmt_ranges(tail).len() == l0 + 4 + rest.len());
        assert(s.len() - pos == l0 + 4 + rest.len());
        assert(s.subrange(pos, pos + l0) =~= spec_fmt_range(tail[0])) by {
            assert forall|i: int| 0 <= i < l0 implies s.subrange(pos, pos + l0)[i]
                == spec_fmt_range(tail[0])[i] by {
                assert(s.subrange(pos, pos + l0)[i] == s[pos + i]);
                assert(s.skip(pos)[i] == s[pos + i]);
            }
        }
        assert(s[pos + l0] == or_sep()[0]) by {
            assert(s.skip(pos)[l0] == s[pos + l0]);
        }
        assert(s.subrange(pos + l0, pos + l0 + 4) =~= or_sep()) by {
            assert forall|i: int| 0 <= i < 4 implies s.subrange(pos + l0, pos + l0 + 4)[i]
                == or_sep()[i] by {
                assert(s.subrange(pos + l0, pos + l0 + 4)[i] == s[pos + l0 + i]);
                assert(s.skip(pos)[l0 + i] == s[pos + l0 + i]);
            }
        }
        assert(s.skip(pos + l0 + 4) =~= rest) by {
            assert forall|i: int| 0 <= i < rest.len() implies s.skip(pos + l0 + 4)[i]
                == rest[i] by {
                assert(s.skip(pos + l0 + 4)[i] == s[pos + l0 + 4 + i]);
                assert(s.skip(pos)[l0 + 4 + i] == s[pos + l0 + 4 + i]);
            }
        }
    }
}

/// The hypothesis of the round trip: `c` is canonical and `s` is its text.
pub open spec fn fmt_hyp(s: Seq<char>, c: Constraint) -> bool {
    c.wf() && s == spec_fmt_ranges(c@)
}

/// Whether ` <= v < ` occupies the eight characters at `at`.
fn has_mid_sep(s: &str, at: usize) -> (b: bool)
    requires
        at <= s@.len(),
    ensures
        b == (at + 8 <= s@.len() && s@.subrange(at as int, at + 8) == mid_sep()),
{
    let len = s.unicode_len();
    if len < 8 || at > len - 8 {
        return false;
    }
    let b = s.get_char(at) == ' ' && s.get_char(at + 1) == '<' && s.get_char(at + 2) == '='
        && s.get_char(at + 3) == ' ' && s.get_char(at + 4) == 'v' && s.get_char(at + 5) == ' '
        && s.get_char(at + 6) == '<' && s.get_char(at + 7) == ' ';
    proof {
        if b {
            assert(s@.subrange(at as int, at + 8) =~= mid_sep());
        } else {
            assert(s@.subrange(at as int, at + 8) != mid_sep()) by {
                if s@.subrange(at as int, at + 8) == mid_sep() {
                    assert forall|k: int| 0 <= k < 8 implies s@[at + k] == mid_sep()[k] by {
                        assert(s@.subrange(at as int, at + 8)[k] == s@[at + k]);
                    }
                    assert(s@[at as int] == ' ' && s@[at + 1] == '<' && s@[at + 2] == '=' && s@[at
                        + 3] == ' ' && s@[at + 4] == 'v' && s@[at + 5] == ' ' && s@[at + 6] == '<'
                        && s@[at + 7] == ' ');
                }
            }
        }
    }
    b
}

/// Whether ` || ` occupies the four characters at `at`.
fn has_or_sep(s: &str, at: usize) -> (b: bool)
    requires
        at <= s@.len(),
    ensures
        b == (at + 4 <= s@.len() && s@.subrange(at as int, at + 4) == or_sep()),
{
    let len = s.unicode_len();
    if len < 4 || at > len - 4 {
        return false;
    }
    let b = s.get_char(at) == ' ' && s.get_char(at + 1) == '|' && s.get_char(at + 2) == '|'
        && s.get_char(at + 3) == ' ';
    proof {
        if b {
            assert(s@.subrange(at as int, at + 4) =~= or_sep());
        } else {
            assert(s@.subrange(at as int, at + 4) != or_sep()) by {
                if s@.subrange(at as int, at + 4) == or_sep() {
                    assert forall|k: int| 0 <= k < 4 implies s@[at + k] == or_sep()[k] by {
                        assert(s@.subrange(at as int, at + 4)[k] == s@[at + k]);
                    }
                }
            }
        }
    }
    b
}

/// Parses the canonical text form of a constraint: possibly empty,
/// otherwise ranges joined by ` || `, each in canonical form and in
/// canonical order. Anything else is rejected.
///
/// The second clause is the round trip: for every canonical constraint
/// `c`, parsing the text of `c` yields exactly `c`.
#[verifier::loop_isolation(false)]
#[verifier::rlimit(100)]
pub fn parse_constraint(s: &str) -> (r: Result<Constraint, ParseError>)
    ensures
        r is Ok ==> s@ == spec_fmt_ranges(r->Ok_0@) && r->Ok_0.wf(),
        forall|c: Constraint| fmt_hyp(s@, c) ==> r is Ok && r->Ok_0@ == c@,
{
    let len = s.unicode_len();
    if len == 0 {
        let out = Constraint::empty();
        proof {
            assert(s@ =~= spec_fmt_ranges(out@));
            assert forall|c: Constraint| fmt_hyp(s@, c) implies out@ == c@ by {
                if c@.len() >= 1 {
                    lemma_fmt_ranges_len(c@);
                }
                assert(out@ =~= c@);
            }
        }
        return Ok(out);
    }
    proof {
        assert forall|c: Constraint| fmt_hyp(s@, c) implies c@.len() >= 1 by {
            if c@.len() == 0 {
                assert(s@ =~= Seq::<char>::empty());
            }
        }
        assert(s@.skip(0) =~= s@);
    }
    let mut found: Vec<Range> = Vec::new();
    let mut pos: usize = 0;
    proof {
        assert forall|c: Constraint| fmt_hyp(s@, c) implies found@.len() < c@.len() && found@
            == c@.take(found@.len() as int) && s@.skip(0) == spec_fmt_ranges(
            c@.skip(found@.len() as int),
        ) by {
            assert(found@ =~= c@.take(0));
            assert(c@.skip(0) =~= c@);
        }
    }
    #[verifier::loop_isolation(true)]
    loop
        invariant_except_break
            forall|c: Constraint|
                fmt_hyp(s@, c) ==> found@.len() < c@.len() && found@ == c@.take(
                    found@.len() as int,
                ) && s@.skip(pos as int) == spec_fmt_ranges(c@.skip(found@.len() as int)),
        invariant
            0 <= pos <= s@.len(),
            len == s@.len(),
        ensures
            forall|c: Constraint| fmt_hyp(s@, c) ==> found@ == c@,
        decreases s@.len() - pos,
    {
        let ghost k = found@.len() as int;
        proof {
            assert forall|c: Constraint| fmt_hyp(s@, c) implies range_run_at(
                s@,
                pos as int,
                c@[k],
                pos + spec_fmt_range(c@[k]).len(),
            ) by {
                lemma_tail_decomp(s@, pos as int, c@.skip(k));
                assert(c@.skip(k)[0] == c@[k]);
            }
        }
        match scan_range_at(s, pos) {
            None => {
                proof {
                    assert forall|c: Constraint| !fmt_hyp(s@, c) by {
                        if fmt_hyp(s@, c) {
                            assert(range_run_at(
                                s@,
                                pos as int,
                                c@[k],
                                pos + spec_fmt_range(c@[k]).len(),
                            ));
                        }
                    }
                }
                return Err(ParseError::Range);
            },
            Some((rg, p)) => {
                found.push(rg);
                proof {
                    assert forall|c: Constraint| fmt_hyp(s@, c) implies rg == c@[k] && p == pos
                        + spec_fmt_range(c@[k]).len() && found@ == c@.take(k + 1) by {
                        assert(range_run_at(
                            s@,
                            pos as int,
                            c@[k],
                            pos + spec_fmt_range(c@[k]).len(),
                        ));
                        assert(found@ =~= c@.take(k + 1));
                    }
                }
                if p == len {
                    proof {
                        assert forall|c: Constraint| fmt_hyp(s@, c) implies found@ == c@ by {
                            lemma_tail_decomp(s@, pos as int, c@.skip(k));
                            assert(c@.skip(k).len() == 1);
                            assert(found@ =~= c@);
                        }
                    }
                    break ;
                }
                proof {
                    assert forall|c: Constraint| fmt_hyp(s@, c) implies c@.skip(k).len() > 1 && p
                        + 4 < s@.len() && s@.subrange(p as int, p + 4) == or_sep() && s@.skip(
                        p + 4,
                    ) == spec_fmt_ranges(c@.skip(k + 1)) by {
                        lemma_tail_decomp(s@, pos as int, c@.skip(k));
                        assert(c@.skip(k).skip(1) =~= c@.skip(k + 1));
                    }
                }
                if !has_or_sep(s, p) {
                    proof {
                        assert forall|c: Constraint| !fmt_hyp(s@, c) by {
                            if fmt_hyp(s@, c) {
                                assert(s@.subrange(p as int, p + 4) == or_sep());
                            }
                        }
                    }
                    return Err(ParseError::Range);
                }
                if p + 4 >= len {
                    proof {
                        assert forall|c: Constraint| !fmt_hyp(s@, c) by {
                            if fmt_hyp(s@, c) {
                                assert(p + 4 < s@.len());
                            }
                        }
                    }
                    return Err(ParseError::Range);
                }
                pos = p + 4;
            },
        }
    }
    // The ranges must already be in canonical form and order.
    let n = found.len();
    let mut i: usize = 0;
    while i < n
        invariant
            0 <= i <= n,
            n == found@.len(),
            forall|j: int|
                0 <= j < i ==> (#[trigger] found@[j]).lo.spec_lt(found@[j].hi) && (j + 1 < n
                    ==> found@[j].hi.spec_lt(found@[j + 1].lo)),
        decreases n - i,
    {
        if !found[i].lo.lt(&found[i].hi) {
            proof {
                assert forall|c: Constraint| !fmt_hyp(s@, c) by {
                    if fmt_hyp(s@, c) {
                        assert(c@[i as int].lo.spec_lt(c@[i as int].hi));
                    }
                }
            }
            return Err(ParseError::Range);
        }
        if i + 1 < n {
            if !found[i].hi.lt(&found[i + 1].lo) {
                proof {
                    assert forall|c: Constraint| !fmt_hyp(s@, c) by {
                        if fmt_hyp(s@, c) {
                            assert(c@[i as int].hi.spec_lt(c@[i + 1].lo));
                        }
                    }
                }
                return Err(ParseError::Range);
            }
        }
        i = i + 1;
    }
    let out = Constraint::from_canonical_parts(found);
    let t = out.to_text();
    if str_eq_string(s, &t) {
        Ok(out)
    } else {
        proof {
            assert forall|c: Constraint| !fmt_hyp(s@, c) by {
                if fmt_hyp(s@, c) {
                    assert(out@ == c@);
                    assert(t@ == s@);
                }
            }
        }
        Err(ParseError::Range)
    }
}

} // verus!
