//! Semantic versions: a `(major, minor, patch)` triple ordered
//! lexicographically.

use vstd::prelude::*;
use vstd::string::StrSliceExecFns;
use vstd::string::StringExecFns;

use crate::error::ParseError;
use crate::num::dec_digits;
use crate::num::is_digit_char;
use crate::num::num_run_at;
use crate::num::append_u64;
use crate::num::scan_u64;

verus! {

/// A semantic version `major.minor.patch`.
///
/// Versions are plain value types: immutable once built, compared by exact
/// triple comparison.
#[derive(Clone, Copy, PartialEq, Eq, Structural, Debug, Hash)]
pub struct Version {
    pub major: u64,
    pub minor: u64,
    pub patch: u64,
}

impl Version {
    /// `self` strictly precedes `other` in the lexicographic order on the
    /// triple.
    pub open spec fn spec_lt(self, other: Version) -> bool {
        ||| self.major < other.major
        ||| (self.major == other.major && self.minor < other.minor)
        ||| (self.major == other.major && self.minor == other.minor
            && self.patch < other.patch)
    }

    /// `self` precedes or equals `other`.
    pub open spec fn spec_le(self, other: Version) -> bool {
        self.spec_lt(other) || self == other
    }

    pub fn new(major: u64, minor: u64, patch: u64) -> (r: Version)
        ensures
            r == (Version { major, minor, patch }),
    {
        Version { major, minor, patch }
    }

    /// Strict order test on the triple.
    pub fn lt(&self, other: &Version) -> (r: bool)
        ensures
            r == self.spec_lt(*other),
    {
        if self.major != other.major {
            self.major < other.major
        } else if self.minor != other.minor {
            self.minor < other.minor
        } else {
            self.patch < other.patch
        }
    }

    /// Order-or-equal test on the triple.
    pub fn le(&self, other: &Version) -> (r: bool)
        ensures
            r == self.spec_le(*other),
    {
        !other.lt(self)
    }
}

/// The lexicographic order on triples is total: any two versions compare.
pub proof fn lemma_version_order_total(a: Version, b: Version)
    ensures
        a.spec_lt(b) || b.spec_lt(a) || a == b,
        !(a.spec_lt(b) && b.spec_lt(a)),
{
}

/// The canonical text of a version: `major.minor.patch` in decimal.
pub open spec fn spec_fmt_version(v: Version) -> Seq<char> {
    dec_digits(v.major as nat) + seq!['.'] + dec_digits(v.minor as nat) + seq!['.'] + dec_digits(
        v.patch as nat,
    )
}

/// The canonical text of `v` starts at `i` in `s` and ends at `j`, at the end
/// of `s` or at a non-digit character.
pub open spec fn version_run_at(s: Seq<char>, i: int, v: Version, j: int) -> bool {
    &&& 0 <= i <= j <= s.len()
    &&& s.subrange(i, j) == spec_fmt_version(v)
    &&& (j == s.len() || !is_digit_char(s[j]))
}

/// Indexing inside a subrange reads the underlying sequence.
proof fn lemma_index_in_subrange(s: Seq<char>, i: int, j: int, k: int)
    requires
        0 <= i <= j <= s.len(),
        0 <= k < j - i,
    ensures
        s.subrange(i, j)[k] == s[i + k],
{
}

/// Appends the canonical text of `v` to `out`.
pub fn append_version(out: &mut String, v: &Version)
    ensures
        final(out)@ == old(out)@ + spec_fmt_version(*v),
{
    proof {
        reveal_strlit(".");
        assert("."@ =~= seq!['.']);
    }
    append_u64(out, v.major);
    out.append(".");
    append_u64(out, v.minor);
    out.append(".");
    append_u64(out, v.patch);
    proof {
        assert(old(out)@ + dec_digits(v.major as nat) + seq!['.'] + dec_digits(v.minor as nat)
            + seq!['.'] + dec_digits(v.patch as nat) =~= old(out)@ + spec_fmt_version(*v));
    }
}

impl Version {
    /// Renders `self` in its canonical `major.minor.patch` form.
    pub fn to_text(&self) -> (r: String)
        ensures
            r@ == spec_fmt_version(*self),
    {
        let mut out = String::new();
        append_version(&mut out, self);
        out
    }
}

/// Scans a version starting at position `i`.
///
/// Whenever the canonical text of some version `v` starts at `i` (and is
/// not followed by a further digit), the scan finds exactly `v`; other
/// outcomes are left open and callers re-render and compare.
pub fn scan_version_at(s: &str, i: usize) -> (r: Option<(Version, usize)>)
    requires
        i <= s@.len(),
    ensures
        r is Some ==> i < r->Some_0.1 <= s@.len(),
        forall|v: Version, j: int| version_run_at(s@, i as int, v, j) ==> r == Some(
            (v, j as usize),
        ),
{
    let len = s.unicode_len();
    let r1 = scan_u64(s, i);
    proof {
        assert(!is_digit_char('.'));
        assert forall|v: Version, j: int| version_run_at(s@, i as int, v, j) implies num_run_at(
            s@,
            i as int,
            v.major,
            i + dec_digits(v.major as nat).len(),
        ) && s@[i + dec_digits(v.major as nat).len()] == '.' by {
            let whole = spec_fmt_version(v);
            let la = dec_digits(v.major as nat).len() as int;
            let lb = dec_digits(v.minor as nat).len() as int;
            let lc = dec_digits(v.patch as nat).len() as int;
            assert(whole.len() == la + 1 + lb + 1 + lc);
            assert(s@.subrange(i as int, j).len() == j - i);
            assert(s@.subrange(i as int, i + la) =~= dec_digits(v.major as nat)) by {
                assert forall|k: int| 0 <= k < la implies s@.subrange(i as int, i + la)[k]
                    == dec_digits(v.major as nat)[k] by {
                    lemma_index_in_subrange(s@, i as int, j, k);
                    lemma_index_in_subrange(s@, i as int, i + la, k);
                }
            }
            lemma_index_in_subrange(s@, i as int, j, la);
            assert(s@[i + la] == whole[la]);
        }
    }
    let (major, p1) = match r1 {
        Some(x) => x,
        None => {
            return None;
        },
    };
    if p1 >= len || !(s.get_char(p1) == '.') {
        proof {
            assert forall|v: Version, j: int| !version_run_at(s@, i as int, v, j) by {
                if version_run_at(s@, i as int, v, j) {
                    let la = dec_digits(v.major as nat).len() as int;
                    let lb = dec_digits(v.minor as nat).len() as int;
                    let lc = dec_digits(v.patch as nat).len() as int;
                    assert(spec_fmt_version(v).len() == la + 1 + lb + 1 + lc);
                    assert(s@.subrange(i as int, j).len() == j - i);
                    assert(num_run_at(s@, i as int, v.major, i + la));
                    assert(s@[i + la] == '.');
                    assert(r1 == Some((v.major, (i + la) as usize)));
                    assert(p1 == i + la);
                    assert(p1 < len);
                }
            }
        }
        return None;
    }
    let r2 = scan_u64(s, p1 + 1);
    proof {
        assert forall|v: Version, j: int| version_run_at(s@, i as int, v, j) implies num_run_at(
            s@,
            p1 + 1,
            v.minor,
            p1 + 1 + dec_digits(v.minor as nat).len(),
        ) && s@[p1 + 1 + dec_digits(v.minor as nat).len()] == '.' by {
            let whole = spec_fmt_version(v);
            let la = dec_digits(v.major as nat).len() as int;
            let lb = dec_digits(v.minor as nat).len() as int;
            let lc = dec_digits(v.patch as nat).len() as int;
            assert(whole.len() == la + 1 + lb + 1 + lc);
            assert(s@.subrange(i as int, j).len() == j - i);
            // The major scan pinned `p1` to the end of the major digits.
            assert(p1 == i + la);
            assert(s@.subrange(p1 + 1, p1 + 1 + lb) =~= dec_digits(v.minor as nat)) by {
                assert forall|k: int| 0 <= k < lb implies s@.subrange(p1 + 1, p1 + 1 + lb)[k]
                    == dec_digits(v.minor as nat)[k] by {
                    lemma_index_in_subrange(s@, i as int, j, la + 1 + k);
                    lemma_index_in_subrange(s@, p1 + 1, p1 + 1 + lb, k);
                }
            }
            lemma_index_in_subrange(s@, i as int, j, la + 1 + lb);
            assert(s@[i + (la + 1 + lb)] == whole[la + 1 + lb]);
        }
    }
    let (minor, p2) = match r2 {
        Some(x) => x,
        None => {
            return None;
        },
    };
    if p2 >= len || !(s.get_char(p2) == '.') {
        proof {
            assert forall|v: Version, j: int| !version_run_at(s@, i as int, v, j) by {
                if version_run_at(s@, i as int, v, j) {
                    let la = dec_digits(v.major as nat).len() as int;
                    let lb = dec_digits(v.minor as nat).len() as int;
                    let lc = dec_digits(v.patch as nat).len() as int;
                    assert(spec_fmt_version(v).len() == la + 1 + lb + 1 + lc);
                    assert(s@.subrange(i as int, j).len() == j - i);
                    assert(num_run_at(s@, p1 + 1, v.minor, p1 + 1 + lb));
                    assert(s@[p1 + 1 + lb] == '.');
                    assert(r2 == Some((v.minor, (p1 + 1 + lb) as usize)));
                    assert(p2 == p1 + 1 + lb);
                    assert(p2 < len);
                }
            }
        }
        return None;
    }
    let r3 = scan_u64(s, p2 + 1);
    proof {
        assert forall|v: Version, j: int| version_run_at(s@, i as int, v, j) implies num_run_at(
            s@,
            p2 + 1,
            v.patch,
            j,
        ) by {
            let whole = spec_fmt_version(v);
            let la = dec_digits(v.major as nat).len() as int;
            let lb = dec_digits(v.minor as nat).len() as int;
            let lc = dec_digits(v.patch as nat).len() as int;
            assert(whole.len() == la + 1 + lb + 1 + lc);
            assert(s@.subrange(i as int, j).len() == j - i);
            assert(p1 == i + la);
            assert(p2 == p1 + 1 + lb);
            assert(j == i + la + 1 + lb + 1 + lc);
            assert(s@.subrange(p2 + 1, j) =~= dec_digits(v.patch as nat)) by {
                assert forall|k: int| 0 <= k < lc implies s@.subrange(p2 + 1, j)[k] == dec_digits(
                    v.patch as nat,
                )[k] by {
                    lemma_index_in_subrange(s@, i as int, j, la + 1 + lb + 1 + k);
                    lemma_index_in_subrange(s@, p2 + 1, j, k);
                }
            }
        }
    }
    let (patch, p3) = match r3 {
        Some(x) => x,
        None => {
            return None;
        },
    };
    Some((Version { major, minor, patch }, p3))
}

/// Parses the canonical `major.minor.patch` form, and accepts nothing else.
///
/// The second clause is the round trip: for every version `v`, parsing the
/// canonical text of `v` yields exactly `v`.
pub fn parse_version(s: &str) -> (r: Result<Version, ParseError>)
    ensures
        r is Ok ==> s@ == spec_fmt_version(r->Ok_0),
        forall|v: Version| s@ == spec_fmt_version(v) ==> r == Ok::<Version, ParseError>(v),
{
    let len = s.unicode_len();
    proof {
        assert forall|v: Version| s@ == spec_fmt_version(v) implies version_run_at(
            s@,
            0,
            v,
            s@.len() as int,
        ) by {
            assert(s@.subrange(0, s@.len() as int) =~= s@);
        }
    }
    match scan_version_at(s, 0) {
        Some((w, j)) => {
            if j != len {
                return Err(ParseError::Version);
            }
            let t = w.to_text();
            if str_eq_string(s, &t) {
                Ok(w)
            } else {
                Err(ParseError::Version)
            }
        },
        None => Err(ParseError::Version),
    }
}

/// Compares a string slice with an owned string, character for character.
pub fn str_eq_string(a: &str, b: &String) -> (r: bool)
    ensures
        r == (a@ == b@),
{
    let ao = a.to_owned();
    ao.eq(b)
}

/// The versions whose canonical text appears in the list, in order:
/// entries that parse as no version are dropped.
pub open spec fn spec_kept_versions(ss: Seq<Seq<char>>) -> Seq<Version>
    decreases ss.len(),
{
    if ss.len() == 0 {
        Seq::empty()
    } else {
        spec_kept_versions(ss.drop_last()) + (if exists|v: Version|
            ss.last() == spec_fmt_version(v) {
            seq![choose|v: Version| ss.last() == spec_fmt_version(v)]
        } else {
            Seq::empty()
        })
    }
}

/// Parses a list of version texts leniently: entries that fail to parse
/// are dropped, never fatal, and the order of the rest is kept.
pub fn parse_version_list(list: &Vec<String>) -> (r: Vec<Version>)
    ensures
        r@ == spec_kept_versions(list@.map_values(|s: String| s@)),
{
    let n = list.len();
    let mut out: Vec<Version> = Vec::new();
    let mut k: usize = 0;
    while k < n
        invariant
            0 <= k <= n,
            n == list@.len(),
            out@ == spec_kept_versions(list@.take(k as int).map_values(|s: String| s@)),
        decreases n - k,
    {
        let ghost pre = list@.take(k as int).map_values(|s: String| s@);
        let ghost cur = list@.take(k + 1).map_values(|s: String| s@);
        proof {
            assert(cur.drop_last() =~= pre);
            assert(cur.last() == list@[k as int]@);
        }
        match parse_version(list[k].as_str()) {
            Ok(v) => {
                out.push(v);
                proof {
                    assert(list@[k as int]@ == spec_fmt_version(v));
                    let w = choose|w: Version| cur.last() == spec_fmt_version(w);
                    // The parse contract pins the parsed version, so the
                    // chosen witness coincides with it.
                    assert(w == v);
                    assert(out@ =~= spec_kept_versions(cur));
                }
            },
            Err(_) => {
                proof {
                    assert(!(exists|v: Version| cur.last() == spec_fmt_version(v))) by {
                        if exists|v: Version| cur.last() == spec_fmt_version(v) {
                            let v = choose|v: Version| cur.last() == spec_fmt_version(v);
                        }
                    }
                    assert(out@ =~= spec_kept_versions(cur));
                }
            },
        }
        k = k + 1;
    }
    proof {
        assert(list@.take(n as int) =~= list@);
    }
    out
}

} // verus!
