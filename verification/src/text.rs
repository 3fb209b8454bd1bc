//! Plain text helpers shared by the store and the importer.

use vstd::prelude::*;

verus! {

/// Character-wise string equality.
pub fn str_eq(a: &str, b: &str) -> (r: bool)
    ensures
        r == (a@ == b@),
{
    let alen = a.unicode_len();
    let blen = b.unicode_len();
    if alen != blen {
        proof {
            assert(a@ != b@);
        }
        return false;
    }
    let mut i: usize = 0;
    while i < alen
        invariant
            i <= alen,
            alen == a@.len(),
            alen == b@.len(),
            forall|k: int| 0 <= k < i ==> a@[k] == b@[k],
        decreases alen - i,
    {
        if a.get_char(i) != b.get_char(i) {
            return false;
        }
        i += 1;
    }
    proof {
        assert(a@ =~= b@);
    }
    true
}

/// Equality between an optional owned string and a plain one.
pub fn opt_str_matches(o: &Option<String>, s: &str) -> (r: bool)
    ensures
        r == (o.deep_view() == Some(s@)),
{
    match o {
        Some(t) => str_eq(t.as_str(), s),
        None => false,
    }
}

/// How many backslashes the text ends with.
pub open spec fn trailing_backslashes(s: Seq<char>) -> nat
    decreases s.len(),
{
    if s.len() == 0 || s.last() != '\\' {
        0
    } else {
        1 + trailing_backslashes(s.drop_last())
    }
}

/// A line continues onto the next iff it ends with an odd number of
/// backslashes: an escaped backslash pair does not count as a continuation.
pub open spec fn is_continuation(s: Seq<char>) -> bool {
    trailing_backslashes(s) % 2 == 1
}

/// Whether a line continues onto the next.
pub fn is_continuation_line(line: &str) -> (r: bool)
    ensures
        r == is_continuation(line@),
{
    let n = line.unicode_len();
    let mut i: usize = n;
    proof {
        assert(line@.subrange(0, n as int) =~= line@);
    }
    while i > 0 && line.get_char(i - 1) == '\\'
        invariant
            i <= n,
            n == line@.len(),
            trailing_backslashes(line@) == trailing_backslashes(line@.subrange(0, i as int)) + (n
                - i),
        decreases i,
    {
        proof {
            let sub = line@.subrange(0, i as int);
            assert(sub.last() == line@[i - 1]);
            assert(sub.drop_last() =~= line@.subrange(0, i as int - 1));
        }
        i -= 1;
    }
    proof {
        let sub = line@.subrange(0, i as int);
        if i > 0 {
            assert(sub.last() == line@[i - 1]);
        }
        assert(trailing_backslashes(sub) == 0);
    }
    let count = n - i;
    count % 2 == 1
}

/// Whether a character is a decimal digit.
pub open spec fn is_digit(c: char) -> bool {
    '0' as int <= c as int <= '9' as int
}

/// The numeric value of a digit character.
pub open spec fn digit_val(c: char) -> int {
    c as int - '0' as int
}

/// Whether all characters are decimal digits.
pub open spec fn all_digits(s: Seq<char>) -> bool {
    forall|i: int| 0 <= i < s.len() ==> is_digit(#[trigger] s[i])
}

/// The number a digit string denotes.
pub open spec fn digits_val(s: Seq<char>) -> int
    decreases s.len(),
{
    if s.len() == 0 {
        0
    } else {
        digits_val(s.drop_last()) * 10 + digit_val(s.last())
    }
}

/// A digit string denotes a number at least as large as any of its prefixes.
pub proof fn lemma_digits_val_monotone(s: Seq<char>)
    requires
        all_digits(s),
    ensures
        digits_val(s) >= 0,
        forall|k: int| 0 <= k <= s.len() ==> #[trigger] digits_val(s.subrange(0, k)) <= digits_val(
            s,
        ),
    decreases s.len(),
{
    if s.len() == 0 {
        assert forall|k: int| 0 <= k <= s.len() implies #[trigger] digits_val(s.subrange(0, k))
            <= digits_val(s) by {
            assert(s.subrange(0, k) =~= s);
        }
    } else {
        let d = s.drop_last();
        assert(all_digits(d)) by {
            assert(forall|i: int| 0 <= i < d.len() ==> #[trigger] d[i] == s[i]);
        }
        lemma_digits_val_monotone(d);
        assert(digit_val(s.last()) >= 0);
        assert forall|k: int| 0 <= k <= s.len() implies #[trigger] digits_val(s.subrange(0, k))
            <= digits_val(s) by {
            if k < s.len() {
                assert(s.subrange(0, k) =~= d.subrange(0, k));
            } else {
                assert(s.subrange(0, k) =~= s);
            }
        }
    }
}

/// The first index at which the character occurs, or -1.
pub open spec fn find_char(s: Seq<char>, c: char) -> int
    decreases s.len(),
{
    if s.len() == 0 {
        -1
    } else if s[0] == c {
        0
    } else {
        let r = find_char(s.drop_first(), c);
        if r == -1 {
            -1
        } else {
            r + 1
        }
    }
}

pub proof fn lemma_find_char(s: Seq<char>, c: char)
    ensures
        find_char(s, c) == -1 ==> forall|k: int| 0 <= k < s.len() ==> s[k] != c,
        find_char(s, c) != -1 ==> 0 <= find_char(s, c) < s.len() && s[find_char(s, c)] == c
            && forall|k: int| 0 <= k < find_char(s, c) ==> s[k] != c,
    decreases s.len(),
{
    if s.len() == 0 {
    } else if s[0] == c {
    } else {
        let t = s.drop_first();
        lemma_find_char(t, c);
        assert(forall|k: int| 0 <= k < t.len() ==> #[trigger] t[k] == s[k + 1]);
        let r = find_char(t, c);
        if r == -1 {
            assert forall|k: int| 0 <= k < s.len() implies s[k] != c by {
                if k > 0 {
                    assert(t[k - 1] != c);
                }
            }
        } else {
            assert(s[r + 1] == t[r]);
            assert forall|k: int| 0 <= k < r + 1 implies s[k] != c by {
                if k > 0 {
                    assert(t[k - 1] != c);
                }
            }
        }
    }
}

/// Finds the first occurrence of a character.
pub fn find_first(s: &str, c: char) -> (r: Option<usize>)
    ensures
        match r {
            Some(j) => find_char(s@, c) == j as int && j < s@.len(),
            None => find_char(s@, c) == -1,
        },
{
    proof {
        lemma_find_char(s@, c);
    }
    let n = s.unicode_len();
    let mut j: usize = 0;
    while j < n
        invariant
            j <= n,
            n == s@.len(),
            forall|k: int| 0 <= k < j ==> s@[k] != c,
        decreases n - j,
    {
        if s.get_char(j) == c {
            proof {
                lemma_find_char(s@, c);
                let idx = find_char(s@, c);
                assert(idx != -1) by {
                    if idx == -1 {
                        assert(s@[j as int] != c);
                    }
                }
                assert(idx == j as int) by {
                    if idx < j as int {
                        assert(s@[idx] != c);
                    }
                    if idx > j as int {
                        assert(s@[j as int] != c);
                    }
                }
            }
            return Some(j);
        }
        j += 1;
    }
    proof {
        if find_char(s@, c) != -1 {
            assert(s@[find_char(s@, c)] != c);
        }
    }
    None
}

/// Parses the digit run `s[from..to]` as a number, refusing an empty run, a
/// non-digit, and a value above `i64::MAX`.
pub fn parse_digits(s: &str, from: usize, to: usize) -> (r: Option<i64>)
    requires
        from <= to <= s@.len(),
    ensures
        ({
            let sub = s@.subrange(from as int, to as int);
            match r {
                Some(v) => to > from && all_digits(sub) && digits_val(sub) == v as int,
                None => !(to > from && all_digits(sub) && digits_val(sub) <= i64::MAX),
            }
        }),
{
    let ghost sub = s@.subrange(from as int, to as int);
    if to == from {
        return None;
    }
    let mut val: u64 = 0;
    let mut k = from;
    while k < to
        invariant
            from <= k <= to <= s@.len(),
            sub == s@.subrange(from as int, to as int),
            all_digits(sub.subrange(0, k - from)),
            val as int == digits_val(sub.subrange(0, k - from)),
            val <= i64::MAX as u64,
        decreases to - k,
    {
        let c = s.get_char(k);
        let cv = c as u32;
        proof {
            assert(sub[k - from] == s@[k as int]);
        }
        if cv < 48 || cv > 57 {
            proof {
                assert(!is_digit(sub[k - from]));
            }
            return None;
        }
        let d = (cv - 48) as u64;
        if val > 922337203685477580u64 || (val == 922337203685477580u64 && d > 7) {
            // the full run can only denote an even larger number
            proof {
                let pre = sub.subrange(0, k - from + 1);
                assert(pre.drop_last() =~= sub.subrange(0, k - from));
                assert(pre.last() == sub[k - from]);
                assert(digits_val(pre) > i64::MAX);
                if all_digits(sub) {
                    lemma_digits_val_monotone(sub);
                    assert(digits_val(sub.subrange(0, k - from + 1)) <= digits_val(sub));
                }
            }
            return None;
        }
        val = val * 10 + d;
        proof {
            let pre = sub.subrange(0, k - from + 1);
            assert(pre.drop_last() =~= sub.subrange(0, k - from));
            assert(pre.last() == sub[k - from]);
        }
        k += 1;
    }
    proof {
        assert(sub.subrange(0, to - from) =~= sub);
    }
    Some(val as i64)
}

/// Whether a character counts as surrounding whitespace.
pub open spec fn is_space_char(c: char) -> bool {
    c == ' ' || c == '\t' || c == '\n' || c == '\r'
}

/// The text with leading whitespace removed.
pub open spec fn trim_start_spec(s: Seq<char>) -> Seq<char>
    decreases s.len(),
{
    if s.len() > 0 && is_space_char(s[0]) {
        trim_start_spec(s.drop_first())
    } else {
        s
    }
}

/// The text with trailing whitespace removed.
pub open spec fn trim_end_spec(s: Seq<char>) -> Seq<char>
    decreases s.len(),
{
    if s.len() > 0 && is_space_char(s.last()) {
        trim_end_spec(s.drop_last())
    } else {
        s
    }
}

/// The text with surrounding whitespace removed.
pub open spec fn trim_spec(s: Seq<char>) -> Seq<char> {
    trim_end_spec(trim_start_spec(s))
}

fn is_space(c: char) -> (r: bool)
    ensures
        r == is_space_char(c),
{
    c == ' ' || c == '\t' || c == '\n' || c == '\r'
}

/// Removes surrounding whitespace.
pub fn trim_str(s: &str) -> (r: String)
    ensures
        r@ == trim_spec(s@),
{
    let n = s.unicode_len();
    let mut a: usize = 0;
    proof {
        assert(s@.subrange(0, n as int) =~= s@);
    }
    while a < n && is_space(s.get_char(a))
        invariant
            a <= n,
            n == s@.len(),
            trim_start_spec(s@) == trim_start_spec(s@.subrange(a as int, n as int)),
        decreases n - a,
    {
        proof {
            let sub = s@.subrange(a as int, n as int);
            assert(sub[0] == s@[a as int]);
            assert(sub.drop_first() =~= s@.subrange(a as int + 1, n as int));
        }
        a += 1;
    }
    proof {
        let sub = s@.subrange(a as int, n as int);
        if a < n {
            assert(sub[0] == s@[a as int]);
        }
        assert(trim_start_spec(sub) == sub);
    }
    let mut b: usize = n;
    while b > a && is_space(s.get_char(b - 1))
        invariant
            a <= b <= n,
            n == s@.len(),
            trim_end_spec(s@.subrange(a as int, n as int)) == trim_end_spec(
                s@.subrange(a as int, b as int),
            ),
        decreases b,
    {
        proof {
            let sub = s@.subrange(a as int, b as int);
            assert(sub.last() == s@[b - 1]);
            assert(sub.drop_last() =~= s@.subrange(a as int, b as int - 1));
        }
        b -= 1;
    }
    proof {
        let sub = s@.subrange(a as int, b as int);
        if b > a {
            assert(sub.last() == s@[b - 1]);
        }
        assert(trim_end_spec(sub) == sub);
    }
    let r = s.substring_char(a, b).to_owned();
    r
}

} // verus!
