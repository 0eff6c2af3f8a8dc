//! Where the first occurrence of an item in a sequence is.

use vstd::prelude::*;

verus! {

/// The number of items of `s` before the first `x`; the length of `s` if `x`
/// does not occur.
pub open spec fn prefix_len<T>(s: Seq<T>, x: T) -> nat
    decreases s.len(),
{
    if s.len() == 0 || s[0] == x {
        0
    } else {
        1 + prefix_len(s.drop_first(), x)
    }
}

/// `prefix_len` is a position in `s` or its end; no `x` stands before it, and
/// where it is a position, `x` stands at it.
pub proof fn lemma_prefix_len<T>(s: Seq<T>, x: T)
    ensures
        prefix_len(s, x) <= s.len(),
        forall|i: int| 0 <= i < prefix_len(s, x) ==> s[i] != x,
        prefix_len(s, x) < s.len() ==> s[prefix_len(s, x) as int] == x,
    decreases s.len(),
{
    if s.len() == 0 || s[0] == x {
    } else {
        lemma_prefix_len(s.drop_first(), x);
        assert forall|i: int| 0 <= i < prefix_len(s, x) implies s[i] != x by {
            if i > 0 {
                assert(s[i] == s.drop_first()[i - 1]);
            }
        }
    }
}

/// A position `k` with `x` at it, or the end, and no `x` before it, is the
/// one that `prefix_len` gives.
pub proof fn lemma_prefix_len_is<T>(s: Seq<T>, x: T, k: int)
    requires
        0 <= k <= s.len(),
        forall|i: int| 0 <= i < k ==> s[i] != x,
        k < s.len() ==> s[k] == x,
    ensures
        prefix_len(s, x) == k,
    decreases s.len(),
{
    if s.len() == 0 || s[0] == x {
    } else {
        assert forall|i: int| 0 <= i < k - 1 implies s.drop_first()[i] != x by {
            assert(s.drop_first()[i] == s[i + 1]);
        }
        lemma_prefix_len_is(s.drop_first(), x, k - 1);
    }
}

/// Where no `x` stands among the first `n` items, the first `x` is as far
/// behind them as it is in what follows them.
pub proof fn lemma_prefix_len_skip<T>(s: Seq<T>, x: T, n: int)
    requires
        0 <= n <= s.len(),
        forall|i: int| 0 <= i < n ==> s[i] != x,
    ensures
        prefix_len(s, x) == n + prefix_len(s.skip(n), x),
{
    let tail = s.skip(n);
    let k = prefix_len(tail, x) as int;
    lemma_prefix_len(tail, x);
    assert forall|i: int| 0 <= i < n + k implies s[i] != x by {
        if i >= n {
            assert(tail[i - n] == s[i]);
        }
    }
    if n + k < s.len() {
        assert(tail[k] == s[n + k]);
    }
    lemma_prefix_len_is(s, x, n + k);
}

} // verus!
