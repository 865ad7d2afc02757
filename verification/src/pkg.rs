//! Package identifiers: `author/name`, validated at construction.

use vstd::prelude::*;
use vstd::string::StrSliceExecFns;
use vstd::string::StringExecFns;

use crate::error::ParseError;

verus! {

/// `c` may appear in an author or package name: lower-case ASCII letters,
/// digits, or a dash.
pub open spec fn is_name_char(c: char) -> bool {
    ||| (97 <= c as u32 && c as u32 <= 122)
    ||| (48 <= c as u32 && c as u32 <= 57)
    ||| c as u32 == 45
}

/// A valid package identifier: a nonempty author part, one `/`, and a
/// nonempty name part, with name characters everywhere else.
pub open spec fn valid_pkg(s: Seq<char>) -> bool {
    exists|k: int|
        0 < k < s.len() - 1 && #[trigger] s[k] == '/' && (forall|i: int|
            0 <= i < s.len() && i != k ==> is_name_char(#[trigger] s[i]))
}

/// An `author/name` package identifier, validated at construction and
/// immutable afterwards.
#[derive(Debug)]
pub struct Pkg {
    name: String,
}

impl View for Pkg {
    type V = Seq<char>;

    closed spec fn view(&self) -> Seq<char> {
        self.name@
    }
}

impl Pkg {
    /// Every constructed identifier satisfies the strict syntax.
    pub open spec fn wf(self) -> bool {
        valid_pkg(self@)
    }

    /// Parses and validates an `author/name` identifier; accepts exactly the
    /// strings that satisfy the strict syntax.
    pub fn parse(s: &str) -> (r: Result<Pkg, ParseError>)
        ensures
            r is Ok ==> r->Ok_0@ == s@ && r->Ok_0.wf(),
            r is Err ==> !valid_pkg(s@),
    {
        let len = s.unicode_len();
        let mut idx: usize = 0;
        let mut slash: usize = 0;
        let mut seen_slash = false;
        while idx < len
            invariant
                0 <= idx <= len,
                len == s@.len(),
                seen_slash ==> 0 < slash < idx && s@[slash as int] == '/',
                forall|i: int|
                    0 <= i < idx && (!seen_slash || i != slash) ==> is_name_char(#[trigger] s@[i]),
            decreases len - idx,
        {
            let c = s.get_char(idx);
            let u = c as u32;
            if c == '/' {
                if seen_slash || idx == 0 {
                    proof {
                        assert forall|k: int| !(0 < k < s@.len() - 1 && #[trigger] s@[k] == '/'
                            && (forall|i: int|
                                0 <= i < s@.len() && i != k ==> is_name_char(
                                    #[trigger] s@[i],
                                ))) by {
                            if 0 < k < s@.len() - 1 && s@[k] == '/' && (forall|i: int|
                                0 <= i < s@.len() && i != k ==> is_name_char(#[trigger] s@[i])) {
                                if seen_slash {
                                    // Two distinct slashes: one of them is not `k`.
                                    if k != slash {
                                        assert(is_name_char(s@[slash as int]));
                                    } else {
                                        assert(is_name_char(s@[idx as int]));
                                    }
                                } else {
                                    assert(is_name_char(s@[idx as int]));
                                }
                            }
                        }
                    }
                    return Err(ParseError::Package);
                }
                slash = idx;
                seen_slash = true;
            } else if !((97 <= u && u <= 122) || (48 <= u && u <= 57) || u == 45) {
                proof {
                    assert(!is_name_char(s@[idx as int]));
                    assert forall|k: int| !(0 < k < s@.len() - 1 && #[trigger] s@[k] == '/' && (
                    forall|i: int|
                        0 <= i < s@.len() && i != k ==> is_name_char(#[trigger] s@[i]))) by {
                        if 0 < k < s@.len() - 1 && s@[k] == '/' && (forall|i: int|
                            0 <= i < s@.len() && i != k ==> is_name_char(#[trigger] s@[i])) {
                            if k != idx {
                                assert(is_name_char(s@[idx as int]));
                            }
                        }
                    }
                }
                return Err(ParseError::Package);
            }
            idx = idx + 1;
        }
        if !seen_slash || slash + 1 >= len {
            proof {
                assert forall|k: int| !(0 < k < s@.len() - 1 && #[trigger] s@[k] == '/' && (forall|
                    i: int,
                |
                    0 <= i < s@.len() && i != k ==> is_name_char(#[trigger] s@[i]))) by {
                    if 0 < k < s@.len() - 1 && s@[k] == '/' && (forall|i: int|
                        0 <= i < s@.len() && i != k ==> is_name_char(#[trigger] s@[i])) {
                        if !seen_slash {
                            assert(is_name_char(s@[k]));
                        } else if k != slash {
                            assert(is_name_char(s@[slash as int]));
                        }
                    }
                }
            }
            return Err(ParseError::Package);
        }
        Ok(Pkg { name: s.to_owned() })
    }

    /// The identifier's text.
    pub fn as_text(&self) -> (r: &str)
        ensures
            r@ == self@,
    {
        self.name.as_str()
    }

    /// A copy of this identifier.
    pub fn duplicate(&self) -> (r: Pkg)
        ensures
            r@ == self@,
    {
        Pkg { name: self.name.clone() }
    }

    /// Identifier equality, character for character.
    pub fn is_same(&self, other: &Pkg) -> (r: bool)
        ensures
            r == (self@ == other@),
    {
        self.name.eq(&other.name)
    }
}

/// Strict lexicographic order on character sequences.
pub open spec fn lex_lt(a: Seq<char>, b: Seq<char>) -> bool
    decreases a.len(),
{
    if b.len() == 0 {
        false
    } else if a.len() == 0 {
        true
    } else if (a[0] as u32) < (b[0] as u32) {
        true
    } else if a[0] == b[0] {
        lex_lt(a.drop_first(), b.drop_first())
    } else {
        false
    }
}

/// The lexicographic order is total and strict: of two distinct texts one
/// precedes the other, and never both.
pub proof fn lemma_lex_total(a: Seq<char>, b: Seq<char>)
    ensures
        a == b || lex_lt(a, b) || lex_lt(b, a),
        !(lex_lt(a, b) && lex_lt(b, a)),
    decreases a.len(),
{
    if a.len() == 0 || b.len() == 0 {
        if a.len() == 0 && b.len() == 0 {
            assert(a =~= b);
        }
    } else if a[0] == b[0] {
        lemma_lex_total(a.drop_first(), b.drop_first());
        if a.drop_first() == b.drop_first() {
            assert(a =~= b) by {
                assert(forall|i: int| 1 <= i < a.len() ==> a[i] == a.drop_first()[i - 1]);
                assert(forall|i: int| 1 <= i < b.len() ==> b[i] == b.drop_first()[i - 1]);
            }
        }
    } else {
        assert((a[0] as u32) != (b[0] as u32)) by {
            if (a[0] as u32) == (b[0] as u32) {
                vstd::utf8::char_u32_cast(a[0], a[0] as u32);
                vstd::utf8::char_u32_cast(b[0], b[0] as u32);
            }
        }
    }
}

impl Pkg {
    /// Whether this identifier strictly precedes `other` in the
    /// lexicographic order; with `is_same`, a total order on identifiers.
    pub fn precedes(&self, other: &Pkg) -> (r: bool)
        ensures
            r == lex_lt(self@, other@),
    {
        let la = self.name.as_str().unicode_len();
        let lb = other.name.as_str().unicode_len();
        let mut i: usize = 0;
        proof {
            assert(self@.skip(0) =~= self@);
            assert(other@.skip(0) =~= other@);
        }
        loop
            invariant
                0 <= i <= la,
                i <= lb,
                la == self@.len(),
                lb == other@.len(),
                lex_lt(self@, other@) == lex_lt(self@.skip(i as int), other@.skip(i as int)),
            decreases la - i,
        {
            if i == la || i == lb {
                proof {
                    if i == la {
                        assert(self@.skip(i as int).len() == 0);
                    }
                    if i == lb {
                        assert(other@.skip(i as int).len() == 0);
                    }
                }
                return i == la && i < lb;
            }
            let ca = self.name.as_str().get_char(i);
            let cb = other.name.as_str().get_char(i);
            proof {
                assert(self@.skip(i as int)[0] == self@[i as int]);
                assert(other@.skip(i as int)[0] == other@[i as int]);
            }
            if (ca as u32) < (cb as u32) {
                return true;
            }
            if (cb as u32) < (ca as u32) {
                return false;
            }
            proof {
                assert(ca == cb) by {
                    vstd::utf8::char_u32_cast(ca, ca as u32);
                    vstd::utf8::char_u32_cast(cb, cb as u32);
                }
                assert(self@.skip(i as int).drop_first() =~= self@.skip(i + 1));
                assert(other@.skip(i as int).drop_first() =~= other@.skip(i + 1));
            }
            i = i + 1;
        }
    }
}

} // verus!
