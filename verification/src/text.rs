use vstd::prelude::*;
use vstd::string::*;
use crate::naming::digit;

verus! {

/// The numeric value of an ASCII digit.
pub open spec fn digit_val(c: char) -> int {
    c as u32 - 48
}

/// The value of a string of ASCII digits, most significant first.
pub open spec fn digits_val(s: Seq<char>) -> int
    decreases s.len(),
{
    if s.len() == 0 {
        0
    } else {
        digits_val(s.drop_last()) * 10 + digit_val(s.last())
    }
}

pub open spec fn all_digits(s: Seq<char>) -> bool {
    forall|i: int| 0 <= i < s.len() ==> digit(#[trigger] s[i])
}

pub proof fn lemma_digits_val_nonneg(s: Seq<char>)
    requires
        all_digits(s),
    ensures
        digits_val(s) >= 0,
    decreases s.len(),
{
    if s.len() > 0 {
        assert(all_digits(s.drop_last()));
        lemma_digits_val_nonneg(s.drop_last());
    }
}

/// The first index holding `c`, or -1 when none does.
pub open spec fn idx_of(s: Seq<char>, c: char) -> int
    decreases s.len(),
{
    if s.len() == 0 {
        -1
    } else if s[0] == c {
        0
    } else if idx_of(s.drop_first(), c) < 0 {
        -1
    } else {
        idx_of(s.drop_first(), c) + 1
    }
}

pub proof fn lemma_idx_of(s: Seq<char>, c: char)
    ensures
        -1 <= idx_of(s, c) < s.len(),
        idx_of(s, c) >= 0 ==> s[idx_of(s, c)] == c,
        idx_of(s, c) >= 0 ==> forall|i: int| 0 <= i < idx_of(s, c) ==> s[i] != c,
        idx_of(s, c) == -1 ==> forall|i: int| 0 <= i < s.len() ==> s[i] != c,
    decreases s.len(),
{
    if s.len() > 0 {
        lemma_idx_of(s.drop_first(), c);
        let t = s.drop_first();
        if s[0] != c {
            let k = idx_of(t, c);
            if k >= 0 {
                assert(s[k + 1] == t[k]);
                assert forall|i: int| 0 <= i < k + 1 implies s[i] != c by {
                    if i > 0 {
                        assert(s[i] == t[i - 1]);
                        assert(t[i - 1] != c);
                    }
                }
            } else {
                assert forall|i: int| 0 <= i < s.len() implies s[i] != c by {
                    if i > 0 {
                        assert(s[i] == t[i - 1]);
                        assert(t[i - 1] != c);
                    }
                }
            }
        }
    }
}

/// The last index holding `c`, or -1 when none does.
pub open spec fn last_idx_of(s: Seq<char>, c: char) -> int
    decreases s.len(),
{
    if s.len() == 0 {
        -1
    } else if s.last() == c {
        s.len() - 1
    } else {
        last_idx_of(s.drop_last(), c)
    }
}

pub proof fn lemma_last_idx_of(s: Seq<char>, c: char)
    ensures
        -1 <= last_idx_of(s, c) < s.len(),
        last_idx_of(s, c) >= 0 ==> s[last_idx_of(s, c)] == c,
        last_idx_of(s, c) >= 0 ==> forall|i: int|
            last_idx_of(s, c) < i < s.len() ==> s[i] != c,
        last_idx_of(s, c) == -1 ==> forall|i: int| 0 <= i < s.len() ==> s[i] != c,
    decreases s.len(),
{
    if s.len() > 0 && s.last() != c {
        lemma_last_idx_of(s.drop_last(), c);
        let t = s.drop_last();
        let k = last_idx_of(t, c);
        if k >= 0 {
            assert forall|i: int| k < i < s.len() implies s[i] != c by {
                if i < s.len() - 1 {
                    assert(s[i] == t[i]);
                    assert(t[i] != c);
                }
            }
        } else {
            assert forall|i: int| 0 <= i < s.len() implies s[i] != c by {
                if i < s.len() - 1 {
                    assert(s[i] == t[i]);
                    assert(t[i] != c);
                }
            }
        }
    }
}

/// Whether `p` occurs in `s` starting at position `i`.
pub open spec fn match_at(s: Seq<char>, p: Seq<char>, i: int) -> bool {
    &&& 0 <= i
    &&& i + p.len() <= s.len()
    &&& forall|j: int| 0 <= j < p.len() ==> s[i + j] == #[trigger] p[j]
}

/// Whether `p` occurs anywhere in `s`.
pub open spec fn has_subseq(s: Seq<char>, p: Seq<char>) -> bool {
    exists|i: int| match_at(s, p, i)
}

/// The first position of `c` in `s`, if any.
pub fn find_char(s: &str, c: char) -> (r: Option<usize>)
    ensures
        r is Some ==> r->0 == idx_of(s@, c),
        r is None ==> idx_of(s@, c) == -1,
{
    let n = s.unicode_len();
    let mut i: usize = 0;
    while i < n
        invariant
            0 <= i <= n,
            n == s@.len(),
            forall|j: int| 0 <= j < i ==> s@[j] != c,
        decreases n - i,
    {
        if s.get_char(i) == c {
            proof {
                lemma_idx_of(s@, c);
            }
            return Some(i);
        }
        i += 1;
    }
    proof {
        lemma_idx_of(s@, c);
    }
    None
}

/// The last position of `c` in `s`, if any.
pub fn rfind_char(s: &str, c: char) -> (r: Option<usize>)
    ensures
        r is Some ==> r->0 == last_idx_of(s@, c),
        r is None ==> last_idx_of(s@, c) == -1,
{
    let n = s.unicode_len();
    let mut i: usize = n;
    while i > 0
        invariant
            0 <= i <= n,
            n == s@.len(),
            forall|j: int| i <= j < n ==> s@[j] != c,
        decreases i,
    {
        i -= 1;
        if s.get_char(i) == c {
            proof {
                lemma_last_idx_of(s@, c);
            }
            return Some(i);
        }
    }
    proof {
        lemma_last_idx_of(s@, c);
    }
    None
}

/// Whether `pat` occurs anywhere in `s`.
pub fn contains_str(s: &str, pat: &str) -> (r: bool)
    ensures
        r == has_subseq(s@, pat@),
{
    let n = s.unicode_len();
    let m = pat.unicode_len();
    if m > n {
        proof {
            assert forall|i: int| !match_at(s@, pat@, i) by {}
        }
        return false;
    }
    let mut i: usize = 0;
    while i <= n - m
        invariant
            0 <= i <= n - m + 1,
            m <= n,
            n == s@.len(),
            m == pat@.len(),
            forall|ii: int| 0 <= ii < i ==> !match_at(s@, pat@, ii),
        decreases n + 1 - m - i,
    {
        let mut j: usize = 0;
        let mut hit = true;
        while j < m
            invariant
                0 <= j <= m,
                0 <= i <= n - m,
                n == s@.len(),
                m == pat@.len(),
                hit ==> forall|jj: int| 0 <= jj < j ==> s@[i + jj] == #[trigger] pat@[jj],
                !hit ==> !match_at(s@, pat@, i as int),
            decreases m - j,
        {
            if s.get_char(i + j) != pat.get_char(j) {
                hit = false;
                proof {
                    assert(!match_at(s@, pat@, i as int));
                }
                j = m;
            } else {
                j += 1;
            }
        }
        if hit {
            assert(match_at(s@, pat@, i as int));
            return true;
        }
        i += 1;
    }
    proof {
        assert forall|ii: int| !match_at(s@, pat@, ii) by {
            if 0 <= ii <= n - m {
            }
        }
    }
    false
}

/// What parsing a decimal integer string yields: an optional sign, then
/// at least one digit, the value within the 64-bit signed range.
pub open spec fn parse_i64_chars(s: Seq<char>) -> Option<int> {
    if s.len() > 0 && (s[0] == '-' || s[0] == '+') {
        let ds = s.drop_first();
        if ds.len() == 0 || !all_digits(ds) {
            None
        } else {
            let v = if s[0] == '-' {
                -digits_val(ds)
            } else {
                digits_val(ds)
            };
            if i64::MIN <= v <= i64::MAX {
                Some(v)
            } else {
                None
            }
        }
    } else {
        if s.len() == 0 || !all_digits(s) {
            None
        } else if digits_val(s) <= i64::MAX {
            Some(digits_val(s))
        } else {
            None
        }
    }
}

/// Parses a decimal integer with an optional sign.
pub fn parse_i64(s: &str) -> (r: Option<i64>)
    ensures
        r is Some ==> parse_i64_chars(s@) == Some(r->0 as int),
        r is None ==> parse_i64_chars(s@) is None,
{
    let n = s.unicode_len();
    if n == 0 {
        return None;
    }
    let first = s.get_char(0);
    let neg = first == '-';
    let signed = neg || first == '+';
    let start: usize = if signed {
        1
    } else {
        0
    };
    let ghost ds = s@.skip(start as int);
    proof {
        if signed {
            assert(s@.drop_first() =~= s@.skip(1));
        } else {
            assert(s@.skip(0) =~= s@);
        }
    }
    if n == start {
        return None;
    }
    let bound: u64 = if neg {
        9_223_372_036_854_775_808
    } else {
        9_223_372_036_854_775_807
    };
    let mut val: u64 = 0;
    let mut over = false;
    let mut i: usize = start;
    while i < n
        invariant
            start <= i <= n,
            n == s@.len(),
            start < n,
            start == 0 || start == 1,
            (start == 1) == (s@[0] == '-' || s@[0] == '+'),
            start == 1 ==> s@.drop_first() == ds,
            start == 0 ==> ds == s@,
            ds == s@.skip(start as int),
            all_digits(ds.take(i - start)),
            over == (digits_val(ds.take(i - start)) > u64::MAX),
            !over ==> val == digits_val(ds.take(i - start)),
        decreases n - i,
    {
        let c = s.get_char(i);
        if !(c as u32 >= 48 && c as u32 <= 57) {
            proof {
                assert(ds[i - start] == s@[i as int]);
                assert(!all_digits(ds)) by {
                    assert(!digit(ds[i - start]));
                }
            }
            return None;
        }
        let d = (c as u32 - 48) as u64;
        proof {
            lemma_digits_val_nonneg(ds.take(i - start));
            assert(ds.take(i - start + 1).drop_last() =~= ds.take(i - start));
            assert(ds.take(i - start + 1).last() == s@[i as int]);
        }
        if !over {
            let limit = (u64::MAX - d) / 10;
            proof {
                vstd::arithmetic::div_mod::lemma_fundamental_div_mod((u64::MAX - d) as int, 10);
            }
            if val > limit {
                over = true;
            } else {
                val = val * 10 + d;
            }
        }
        i += 1;
    }
    proof {
        assert(ds.take(n - start) =~= ds);
        lemma_digits_val_nonneg(ds);
    }
    if over || val > bound {
        return None;
    }
    if neg {
        if val == 9_223_372_036_854_775_808 {
            Some(i64::MIN)
        } else {
            Some(-(val as i64))
        }
    } else {
        Some(val as i64)
    }
}

} // verus!
