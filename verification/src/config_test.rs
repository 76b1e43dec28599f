//! The decisions of the configuration test: what counts as a warning and how
//! the API key is judged (without contacting Roblox).

use vstd::prelude::*;

verus! {

/// How many inputs matched no PNG file.
pub open spec fn unmatched_count(counts: Seq<usize>) -> nat
    decreases counts.len(),
{
    if counts.len() == 0 {
        0
    } else {
        unmatched_count(counts.drop_last()) + if counts.last() == 0 {
            1nat
        } else {
            0nat
        }
    }
}

proof fn lemma_unmatched_count_prefix(counts: Seq<usize>, i: int)
    requires
        0 <= i <= counts.len(),
    ensures
        unmatched_count(counts.take(i)) <= unmatched_count(counts),
    decreases counts.len(),
{
    if i < counts.len() {
        let d = counts.drop_last();
        assert(counts.take(i) =~= d.take(i));
        lemma_unmatched_count_prefix(d, i);
    } else {
        assert(counts.take(i) =~= counts);
    }
}

/// The warnings are exactly the inputs that matched nothing: their number is
/// the number of zero match counts.
pub proof fn lemma_unmatched_count_counts_zeros(counts: Seq<usize>)
    ensures
        unmatched_count(counts) == counts.filter(|c: usize| c == 0).len(),
    decreases counts.len(),
{
    reveal_with_fuel(Seq::<_>::filter, 1);
    if counts.len() > 0 {
        lemma_unmatched_count_counts_zeros(counts.drop_last());
    }
}

/// One input gives one warning when it matched nothing and none otherwise,
/// and the warnings of two lists of inputs add up.
pub proof fn lemma_unmatched_count_additive(a: Seq<usize>, b: Seq<usize>, c: usize)
    ensures
        unmatched_count(seq![c]) == if c == 0 {
            1nat
        } else {
            0nat
        },
        unmatched_count(a + b) == unmatched_count(a) + unmatched_count(b),
    decreases b.len(),
{
    assert(seq![c].drop_last() =~= Seq::<usize>::empty());
    assert(seq![c].last() == c);
    assert(unmatched_count(Seq::<usize>::empty()) == 0);
    assert(unmatched_count(seq![c]) == unmatched_count(seq![c].drop_last()) + if c == 0 {
        1nat
    } else {
        0nat
    });
    if b.len() == 0 {
        assert(a + b =~= a);
    } else {
        lemma_unmatched_count_additive(a, b.drop_last(), c);
        assert((a + b).drop_last() =~= a + b.drop_last());
    }
}

/// The warnings of a configuration test: one for each input whose pattern
/// matched no PNG file (`counts` holds the number of matches per input).
pub fn count_unmatched(counts: &[usize]) -> (w: u32)
    requires
        unmatched_count(counts@) <= u32::MAX,
    ensures
        w == unmatched_count(counts@),
{
    let n = counts.len();
    let mut w: u32 = 0;
    let mut i: usize = 0;
    while i < n
        invariant
            n == counts@.len(),
            unmatched_count(counts@) <= u32::MAX,
            i <= n,
            w == unmatched_count(counts@.take(i as int)),
        decreases n - i,
    {
        proof {
            assert(counts@.take(i + 1).drop_last() =~= counts@.take(i as int));
            lemma_unmatched_count_prefix(counts@, i + 1);
        }
        if counts[i] == 0 {
            w = w + 1;
        }
        i = i + 1;
    }
    proof {
        assert(counts@.take(n as int) =~= counts@);
    }
    w
}

/// The verdict on the API key.
pub enum ApiKeyCheck {
    /// No key was given: the check is skipped (a note, not a warning).
    Missing,
    /// The key is the empty string (reported as an error).
    Empty,
    /// A key is present; it is not tried against Roblox.
    Present,
}

/// Judges the API key: only whether one was given and whether it is empty.
pub fn check_api_key(api_key: Option<&str>) -> (r: ApiKeyCheck)
    ensures
        api_key is None ==> r is Missing,
        api_key matches Some(k) ==> (k@.len() == 0 ==> r is Empty) && (k@.len() > 0 ==> r is Present),
{
    match api_key {
        None => ApiKeyCheck::Missing,
        Some(k) => if k.is_empty() {
            ApiKeyCheck::Empty
        } else {
            ApiKeyCheck::Present
        },
    }
}

} // verus!
