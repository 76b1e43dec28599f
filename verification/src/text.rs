//! Character-level helpers for the path and name handling of the library.

use vstd::prelude::*;

verus! {

broadcast use vstd::string::axiom_spec_iter;

/// The characters of a string slice.
pub fn chars_of(s: &str) -> (v: Vec<char>)
    ensures
        v@ == s@,
{
    let mut v: Vec<char> = Vec::new();
    for c in it: s.chars()
        invariant
            v@ == it.seq().take(it.index() as int),
    {
        v.push(c);
    }
    v
}

/// A string holding the given characters.
pub fn string_from_chars(v: &[char]) -> (s: String)
    ensures
        s@ == v@,
{
    let mut s = String::new();
    let n = v.len();
    let mut i: usize = 0;
    while i < n
        invariant
            n == v@.len(),
            i <= n,
            s@ == v@.take(i as int),
        decreases n - i,
    {
        s.push(v[i]);
        proof {
            assert(v@.take(i + 1) =~= v@.take(i as int).push(v@[i as int]));
        }
        i = i + 1;
    }
    proof {
        assert(v@.take(n as int) =~= v@);
    }
    s
}

/// Whether two strings hold the same characters.
pub fn same_text(a: &str, b: &str) -> (r: bool)
    ensures
        r == (a@ == b@),
{
    a.to_owned() == b.to_owned()
}

/// The position of the first `c` in `s`, or `s.len()` when there is none.
pub open spec fn first_index_or_len(s: Seq<char>, c: char) -> nat
    decreases s.len(),
{
    if s.len() == 0 {
        0
    } else if s[0] == c {
        0
    } else {
        1 + first_index_or_len(s.drop_first(), c)
    }
}

/// `first_index_or_len` is the one position before which `c` does not occur
/// and at which `c` occurs (or the text ends).
pub proof fn lemma_first_index_or_len(s: Seq<char>, c: char, k: int)
    requires
        0 <= k <= s.len(),
        forall|j: int| 0 <= j < k ==> s[j] != c,
        k == s.len() || s[k] == c,
    ensures
        first_index_or_len(s, c) == k,
    decreases s.len(),
{
    if s.len() > 0 && k > 0 {
        let t = s.drop_first();
        assert forall|j: int| 0 <= j < k - 1 implies t[j] != c by {
            assert(s[j + 1] != c);
        }
        assert(s[0] != c);
        if k < s.len() {
            assert(t[k - 1] == s[k]);
        }
        lemma_first_index_or_len(t, c, k - 1);
    }
}

/// The position of the last `c` in `s`, or -1 when there is none.
pub open spec fn last_index_of(s: Seq<char>, c: char) -> int
    decreases s.len(),
{
    if s.len() == 0 {
        -1
    } else if s.last() == c {
        s.len() - 1
    } else {
        last_index_of(s.drop_last(), c)
    }
}

/// `s` with every trailing `c` removed.
pub open spec fn trim_end(s: Seq<char>, c: char) -> Seq<char>
    decreases s.len(),
{
    if s.len() > 0 && s.last() == c {
        trim_end(s.drop_last(), c)
    } else {
        s
    }
}

/// Removing trailing `c` never lengthens a text, and leaves no trailing `c`.
pub proof fn lemma_trim_end(s: Seq<char>, c: char)
    ensures
        trim_end(s, c).len() <= s.len(),
        trim_end(s, c).len() > 0 ==> trim_end(s, c).last() != c,
        trim_end(s, c) =~= s.take(trim_end(s, c).len() as int),
    decreases s.len(),
{
    if s.len() > 0 && s.last() == c {
        lemma_trim_end(s.drop_last(), c);
        let t = trim_end(s.drop_last(), c);
        assert(s.drop_last().take(t.len() as int) =~= s.take(t.len() as int));
    } else {
        assert(s.take(s.len() as int) =~= s);
    }
}

/// `last_index_of` lies within the text, points at `c` when it is not -1,
/// and no `c` follows it.
pub proof fn lemma_last_index_of(s: Seq<char>, c: char)
    ensures
        -1 <= last_index_of(s, c) < s.len(),
        last_index_of(s, c) >= 0 ==> s[last_index_of(s, c)] == c,
        forall|j: int| last_index_of(s, c) < j < s.len() ==> s[j] != c,
    decreases s.len(),
{
    if s.len() > 0 && s.last() != c {
        lemma_last_index_of(s.drop_last(), c);
        assert forall|j: int| last_index_of(s, c) < j < s.len() implies s[j] != c by {
            if j < s.len() - 1 {
                assert(s.drop_last()[j] == s[j]);
            }
        }
    }
}

/// Before `first_index_or_len` there is no `c`, and at it there is one
/// (unless it is the end of the text).
pub proof fn lemma_first_index_props(s: Seq<char>, c: char)
    ensures
        first_index_or_len(s, c) <= s.len(),
        forall|j: int| 0 <= j < first_index_or_len(s, c) ==> s[j] != c,
        first_index_or_len(s, c) < s.len() ==> s[first_index_or_len(s, c) as int] == c,
    decreases s.len(),
{
    if s.len() > 0 && s[0] != c {
        let t = s.drop_first();
        lemma_first_index_props(t, c);
        assert forall|j: int| 0 <= j < first_index_or_len(s, c) implies s[j] != c by {
            if j > 0 {
                assert(s[j] == t[j - 1]);
            }
        }
    }
}

/// What `trim_end` removes is all `c`.
pub proof fn lemma_trim_end_removed(s: Seq<char>, c: char)
    ensures
        forall|j: int| trim_end(s, c).len() <= j < s.len() ==> s[j] == c,
    decreases s.len(),
{
    if s.len() > 0 && s.last() == c {
        lemma_trim_end_removed(s.drop_last(), c);
        assert forall|j: int| trim_end(s, c).len() <= j < s.len() implies s[j] == c by {
            if j < s.len() - 1 {
                assert(s.drop_last()[j] == s[j]);
            }
        }
    }
}

/// The decimal digit for a value below 10.
pub open spec fn decimal_digit(d: int) -> char {
    (48 + d) as char
}

/// The decimal writing of `n`, without leading zeros ("0" for zero).
pub open spec fn decimal(n: nat) -> Seq<char>
    decreases n,
{
    if n < 10 {
        seq![decimal_digit(n as int)]
    } else {
        decimal(n / 10).push(decimal_digit((n % 10) as int))
    }
}

/// Writes `n` in decimal.
pub fn to_decimal(n: u64) -> (s: String)
    ensures
        s@ == decimal(n as nat),
{
    // digits, least significant first
    let mut rev: Vec<char> = Vec::new();
    rev.push((48u8 + (n % 10) as u8) as char);
    let mut m: u64 = n / 10;
    proof {
        if n >= 10 {
            assert(decimal(n as nat) == decimal(m as nat).push(decimal_digit((n % 10) as int)));
        }
    }
    while m > 0
        invariant
            rev@.len() > 0,
            decimal(n as nat) =~= if m == 0 {
                Seq::<char>::empty()
            } else {
                decimal(m as nat)
            } + rev@.reverse(),
        decreases m,
    {
        let d = m % 10;
        let ghost before = rev@;
        let ghost old_m = m;
        rev.push((48u8 + d as u8) as char);
        m = m / 10;
        proof {
            assert(rev@.reverse() =~= seq![decimal_digit(d as int)] + before.reverse());
            if old_m >= 10 {
                assert(decimal(old_m as nat) == decimal(m as nat).push(decimal_digit(d as int)));
            } else {
                assert(decimal(old_m as nat) == seq![decimal_digit(d as int)]);
            }
        }
    }
    let mut s = String::new();
    let len = rev.len();
    let mut i: usize = len;
    while i > 0
        invariant
            i <= len,
            len == rev@.len(),
            s@ =~= rev@.reverse().take((len - i) as int),
        decreases i,
    {
        i = i - 1;
        s.push(rev[i]);
        proof {
            assert(rev@.reverse().take((len - i) as int) =~= rev@.reverse().take(
                (len - i - 1) as int,
            ).push(rev@[i as int]));
        }
    }
    proof {
        assert(rev@.reverse().take(len as int) =~= rev@.reverse());
    }
    s
}

} // verus!
