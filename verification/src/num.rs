//! Decimal rendering and scanning of unsigned numbers, with a canonical
//! digit-sequence model.

use vstd::prelude::*;

verus! {

/// `c` is an ASCII decimal digit.
pub open spec fn is_digit_char(c: char) -> bool {
    48 <= c as u32 && c as u32 <= 57
}

/// Numeric value of a digit character.
pub open spec fn digit_val(c: char) -> nat {
    (c as u32 - 48) as nat
}

/// The digit character for a value below ten.
pub open spec fn char_of_digit(d: nat) -> char {
    if d == 0 {
        '0'
    } else if d == 1 {
        '1'
    } else if d == 2 {
        '2'
    } else if d == 3 {
        '3'
    } else if d == 4 {
        '4'
    } else if d == 5 {
        '5'
    } else if d == 6 {
        '6'
    } else if d == 7 {
        '7'
    } else if d == 8 {
        '8'
    } else {
        '9'
    }
}

/// Canonical decimal rendering of `n`: no leading zeros, at least one digit.
pub open spec fn dec_digits(n: nat) -> Seq<char>
    decreases n,
{
    if n < 10 {
        seq![char_of_digit(n)]
    } else {
        dec_digits(n / 10).push(char_of_digit(n % 10))
    }
}

/// Value of a digit sequence read as a decimal number.
pub open spec fn dec_val(s: Seq<char>) -> nat
    decreases s.len(),
{
    if s.len() == 0 {
        0
    } else {
        10 * dec_val(s.drop_last()) + digit_val(s.last())
    }
}

proof fn lemma_char_of_digit_props(d: nat)
    requires
        d < 10,
    ensures
        is_digit_char(char_of_digit(d)),
        digit_val(char_of_digit(d)) == d,
{
}

/// The canonical rendering is nonempty and consists of digits only.
pub proof fn lemma_dec_digits_wf(n: nat)
    ensures
        dec_digits(n).len() >= 1,
        forall|i: int| 0 <= i < dec_digits(n).len() ==> is_digit_char(#[trigger] dec_digits(n)[i]),
    decreases n,
{
    if n < 10 {
        lemma_char_of_digit_props(n);
    } else {
        lemma_dec_digits_wf(n / 10);
        lemma_char_of_digit_props(n % 10);
        assert forall|i: int| 0 <= i < dec_digits(n).len() implies is_digit_char(
            #[trigger] dec_digits(n)[i],
        ) by {
            if i < dec_digits(n / 10).len() {
                assert(dec_digits(n)[i] == dec_digits(n / 10)[i]);
            }
        }
    }
}

/// Reading the canonical rendering back gives the number itself.
pub proof fn lemma_dec_val_of_digits(n: nat)
    ensures
        dec_val(dec_digits(n)) == n,
    decreases n,
{
    if n < 10 {
        lemma_char_of_digit_props(n);
        assert(dec_digits(n).drop_last() =~= Seq::<char>::empty());
        assert(dec_digits(n).last() == char_of_digit(n));
        assert(dec_digits(n).len() == 1);
        assert(dec_val(dec_digits(n)) == 10 * dec_val(dec_digits(n).drop_last()) + digit_val(
            dec_digits(n).last(),
        ));
        assert(dec_val(Seq::<char>::empty()) == 0);
    } else {
        lemma_dec_val_of_digits(n / 10);
        lemma_char_of_digit_props(n % 10);
        assert(dec_digits(n).drop_last() =~= dec_digits(n / 10));
        assert(dec_digits(n).last() == char_of_digit(n % 10));
        assert(dec_val(dec_digits(n)) == 10 * dec_val(dec_digits(n / 10)) + digit_val(
            char_of_digit(n % 10),
        ));
        assert(dec_val(dec_digits(n)) == 10 * (n / 10) + n % 10);
        vstd::arithmetic::div_mod::lemma_fundamental_div_mod(n as int, 10);
        assert(n == 10 * (n / 10) + n % 10);
    }
}

/// A prefix of a digit sequence never reads as a larger value.
pub proof fn lemma_dec_val_prefix_le(s: Seq<char>, k: int)
    requires
        0 <= k <= s.len(),
    ensures
        dec_val(s.take(k)) <= dec_val(s),
    decreases s.len(),
{
    if k < s.len() {
        assert(s.drop_last().take(k) =~= s.take(k));
        lemma_dec_val_prefix_le(s.drop_last(), k);
    } else {
        assert(s.take(k) =~= s);
    }
}

/// Appends one digit character to `out`.
fn append_digit(out: &mut String, d: u64)
    requires
        d < 10,
    ensures
        final(out)@ == old(out)@ + seq![char_of_digit(d as nat)],
{
    if d == 0 {
        proof {
            reveal_strlit("0");
            assert("0"@ =~= seq![char_of_digit(0)]);
        }
        out.append("0");
    } else if d == 1 {
        proof {
            reveal_strlit("1");
            assert("1"@ =~= seq![char_of_digit(1)]);
        }
        out.append("1");
    } else if d == 2 {
        proof {
            reveal_strlit("2");
            assert("2"@ =~= seq![char_of_digit(2)]);
        }
        out.append("2");
    } else if d == 3 {
        proof {
            reveal_strlit("3");
            assert("3"@ =~= seq![char_of_digit(3)]);
        }
        out.append("3");
    } else if d == 4 {
        proof {
            reveal_strlit("4");
            assert("4"@ =~= seq![char_of_digit(4)]);
        }
        out.append("4");
    } else if d == 5 {
        proof {
            reveal_strlit("5");
            assert("5"@ =~= seq![char_of_digit(5)]);
        }
        out.append("5");
    } else if d == 6 {
        proof {
            reveal_strlit("6");
            assert("6"@ =~= seq![char_of_digit(6)]);
        }
        out.append("6");
    } else if d == 7 {
        proof {
            reveal_strlit("7");
            assert("7"@ =~= seq![char_of_digit(7)]);
        }
        out.append("7");
    } else if d == 8 {
        proof {
            reveal_strlit("8");
            assert("8"@ =~= seq![char_of_digit(8)]);
        }
        out.append("8");
    } else {
        proof {
            reveal_strlit("9");
            assert("9"@ =~= seq![char_of_digit(9)]);
        }
        out.append("9");
    }
}

/// Appends the canonical decimal rendering of `n` to `out`.
pub fn append_u64(out: &mut String, n: u64)
    ensures
        final(out)@ == old(out)@ + dec_digits(n as nat),
    decreases n,
{
    if n < 10 {
        append_digit(out, n);
    } else {
        append_u64(out, n / 10);
        append_digit(out, n % 10);
        proof {
            assert(old(out)@ + dec_digits((n / 10) as nat) + seq![
                char_of_digit((n % 10) as nat),
            ] =~= old(out)@ + dec_digits(n as nat));
        }
    }
}

/// A digit run `dec_digits(n)` starts at `i` in `s` and ends at `j`, at the
/// end of `s` or at a non-digit character.
pub open spec fn num_run_at(s: Seq<char>, i: int, n: u64, j: int) -> bool {
    &&& 0 <= i <= j <= s.len()
    &&& s.subrange(i, j) == dec_digits(n as nat)
    &&& (j == s.len() || !is_digit_char(s[j]))
}

/// Scans a decimal number starting at position `i`.
///
/// Whenever a canonical digit run for some `n: u64` starts at `i`, the scan
/// is guaranteed to find exactly that run; what it returns on other inputs
/// is left open (callers re-render and compare).
pub fn scan_u64(s: &str, i: usize) -> (r: Option<(u64, usize)>)
    requires
        i <= s@.len(),
    ensures
        r is Some ==> i < r->Some_0.1 <= s@.len(),
        forall|n: u64, j: int| num_run_at(s@, i as int, n, j) ==> r == Some((n, j as usize)),
{
    let len = s.unicode_len();
    let mut j = i;
    let mut val: u64 = 0;
    let mut started = false;
    loop
        invariant
            i <= j <= len,
            len == s@.len(),
            val as nat == dec_val(s@.subrange(i as int, j as int)),
            started == (j != i),
            forall|n: u64, jj: int| num_run_at(s@, i as int, n, jj) ==> j <= jj,
            forall|k: int| i <= k < j ==> is_digit_char(s@[k]),
        decreases len - j,
    {
        if j == len || !(48 <= s.get_char(j) as u32 && s.get_char(j) as u32 <= 57) {
            // End of the digit run.
            if !started {
                proof {
                    assert forall|n: u64, jj: int| !num_run_at(s@, i as int, n, jj) by {
                        if num_run_at(s@, i as int, n, jj) {
                            lemma_dec_digits_wf(n as nat);
                            assert(s@[i as int] == dec_digits(n as nat)[0]);
                        }
                    }
                }
                return None;
            }
            proof {
                assert forall|n: u64, jj: int|
                    num_run_at(s@, i as int, n, jj) implies Some((val, j)) == Some::<(u64,
                usize)>((n, jj as usize)) by {
                    lemma_dec_digits_wf(n as nat);
                    // Every position of the run is a digit, and `j` stops at a
                    // non-digit or the end, so `j == jj`.
                    if j < jj {
                        assert(s@[j as int] == dec_digits(n as nat)[j - i]);
                    }
                    assert(jj == j);
                    lemma_dec_val_of_digits(n as nat);
                    assert(val == n);
                }
            }
            return Some((val, j));
        }
        let c = s.get_char(j);
        let d: u64 = (c as u32 - 48) as u64;
        proof {
            assert forall|n: u64, jj: int| num_run_at(s@, i as int, n, jj) implies j + 1 <= jj by {
                lemma_dec_digits_wf(n as nat);
                if jj <= j {
                    assert(jj == j);
                }
            }
        }
        if val > (u64::MAX - d) / 10 {
            // The running value would overflow; no `u64` run can start here.
            proof {
                assert forall|n: u64, jj: int| !num_run_at(s@, i as int, n, jj) by {
                    if num_run_at(s@, i as int, n, jj) {
                        lemma_dec_digits_wf(n as nat);
                        lemma_dec_val_of_digits(n as nat);
                        assert(s@.subrange(i as int, jj) =~= dec_digits(n as nat));
                        assert(s@.subrange(i as int, j + 1) =~= s@.subrange(i as int, jj).take(
                            j + 1 - i,
                        ));
                        lemma_dec_val_prefix_le(s@.subrange(i as int, jj), j + 1 - i);
                        assert(s@.subrange(i as int, j + 1).drop_last() =~= s@.subrange(
                            i as int,
                            j as int,
                        ));
                        assert(dec_val(s@.subrange(i as int, j + 1)) == 10 * (val as nat) + (
                        d as nat));
                        assert(10 * (val as nat) + (d as nat) <= u64::MAX) by {
                            assert(dec_val(s@.subrange(i as int, j + 1)) <= n);
                        }
                        assert(val <= (u64::MAX - d) / 10) by (nonlinear_arith)
                            requires
                                10 * (val as nat) + (d as nat) <= u64::MAX,
                                d < 10,
                        ;
                    }
                }
            }
            return None;
        }
        proof {
            assert(val * 10 + d <= u64::MAX) by (nonlinear_arith)
                requires
                    val <= (u64::MAX - d) / 10,
                    d < 10,
            ;
            assert(s@.subrange(i as int, j + 1).drop_last() =~= s@.subrange(i as int, j as int));
            assert(digit_val(s@[j as int]) == d as nat);
        }
        val = val * 10 + d;
        j = j + 1;
        started = true;
    }
}

} // verus!
