//! Counting the positions of a sequence that satisfy a predicate, and sums of
//! such counts. The contracts of the graph queries are stated over these.

use vstd::prelude::*;

verus! {

/// Number of positions of `s` whose element satisfies `pred`.
pub open spec fn count_if(s: Seq<usize>, pred: spec_fn(usize) -> bool) -> nat
    decreases s.len(),
{
    if s.len() == 0 {
        0
    } else {
        count_if(s.drop_last(), pred) + if pred(s.last()) {
            1nat
        } else {
            0nat
        }
    }
}

/// The predicate "equals `x`".
pub open spec fn is_value(x: usize) -> spec_fn(usize) -> bool {
    |y: usize| y == x
}

/// The predicate "occurs in `list`".
pub open spec fn is_member(list: Seq<usize>) -> spec_fn(usize) -> bool {
    |y: usize| list.contains(y)
}

/// Number of positions of `s` that hold `x`.
pub open spec fn occurrences(s: Seq<usize>, x: usize) -> nat {
    count_if(s, is_value(x))
}

/// A count never exceeds the length.
pub proof fn lemma_count_if_bound(s: Seq<usize>, pred: spec_fn(usize) -> bool)
    ensures
        count_if(s, pred) <= s.len(),
    decreases s.len(),
{
    if s.len() > 0 {
        lemma_count_if_bound(s.drop_last(), pred);
    }
}

/// Counting a prefix one element longer adds that element's contribution.
pub proof fn lemma_count_if_step(s: Seq<usize>, pred: spec_fn(usize) -> bool, k: int)
    requires
        0 <= k < s.len(),
    ensures
        count_if(s.take(k + 1), pred) == count_if(s.take(k), pred) + if pred(s[k]) {
            1nat
        } else {
            0nat
        },
{
    assert(s.take(k + 1).drop_last() =~= s.take(k));
}

/// Appending one element adds that element's contribution.
pub proof fn lemma_count_if_push(s: Seq<usize>, pred: spec_fn(usize) -> bool, x: usize)
    ensures
        count_if(s.push(x), pred) == count_if(s, pred) + if pred(x) {
            1nat
        } else {
            0nat
        },
{
    assert(s.push(x).drop_last() =~= s);
}

/// Replacing one element exchanges its contribution for the new element's.
pub proof fn lemma_count_if_update(
    s: Seq<usize>,
    pred: spec_fn(usize) -> bool,
    k: int,
    y: usize,
)
    requires
        0 <= k < s.len(),
    ensures
        count_if(s.update(k, y), pred) + (if pred(s[k]) {
            1nat
        } else {
            0nat
        }) == count_if(s, pred) + (if pred(y) {
            1nat
        } else {
            0nat
        }),
    decreases s.len(),
{
    if k == s.len() - 1 {
        assert(s.update(k, y).drop_last() =~= s.drop_last());
    } else {
        assert(s.update(k, y).drop_last() =~= s.drop_last().update(k, y));
        lemma_count_if_update(s.drop_last(), pred, k, y);
    }
}

/// In a sequence without repetitions every value occurs at most once.
pub proof fn lemma_occurrences_no_duplicates(s: Seq<usize>, x: usize)
    requires
        s.no_duplicates(),
    ensures
        occurrences(s, x) == if s.contains(x) {
            1nat
        } else {
            0nat
        },
    decreases s.len(),
{
    if s.len() > 0 {
        let t = s.drop_last();
        lemma_occurrences_no_duplicates(t, x);
        if s.last() == x {
            if t.contains(x) {
                let k = choose|k: int| 0 <= k < t.len() && t[k] == x;
                assert(s[k] == s[s.len() - 1]);
            }
            assert(s[s.len() - 1] == x);
        } else {
            if s.contains(x) {
                let k = choose|k: int| 0 <= k < s.len() && s[k] == x;
                assert(t[k] == x);
            }
            if t.contains(x) {
                let k = choose|k: int| 0 <= k < t.len() && t[k] == x;
                assert(s[k] == x);
            }
        }
    }
}

/// The count is positive exactly when some element satisfies the predicate.
pub proof fn lemma_count_if_positive(s: Seq<usize>, pred: spec_fn(usize) -> bool)
    ensures
        count_if(s, pred) > 0 <==> exists|k: int| 0 <= k < s.len() && pred(#[trigger] s[k]),
    decreases s.len(),
{
    if s.len() > 0 {
        let t = s.drop_last();
        lemma_count_if_positive(t, pred);
        if count_if(s, pred) > 0 {
            if pred(s.last()) {
                assert(pred(s[s.len() - 1]));
            } else {
                let k = choose|k: int| 0 <= k < t.len() && pred(#[trigger] t[k]);
                assert(pred(s[k]));
            }
        }
        if exists|k: int| 0 <= k < s.len() && pred(#[trigger] s[k]) {
            let k = choose|k: int| 0 <= k < s.len() && pred(#[trigger] s[k]);
            if k < s.len() - 1 {
                assert(pred(t[k]));
            }
        }
    }
}

/// `x` occurs in `s` exactly when its number of occurrences is positive.
pub proof fn lemma_occurrences_contains(s: Seq<usize>, x: usize)
    ensures
        occurrences(s, x) > 0 <==> s.contains(x),
{
    lemma_count_if_positive(s, is_value(x));
    if occurrences(s, x) > 0 {
        let k = choose|k: int| 0 <= k < s.len() && is_value(x)(#[trigger] s[k]);
        assert(s[k] == x);
    }
    if s.contains(x) {
        let k = choose|k: int| 0 <= k < s.len() && s[k] == x;
        assert(is_value(x)(s[k]));
    }
}

/// Sum of `f(0) + ... + f(n - 1)`.
pub open spec fn sum_upto(f: spec_fn(int) -> nat, n: nat) -> nat
    decreases n,
{
    if n == 0 {
        0
    } else {
        sum_upto(f, (n - 1) as nat) + f(n - 1)
    }
}

/// Two functions that agree below `n` have the same sum.
pub proof fn lemma_sum_agree(f: spec_fn(int) -> nat, g: spec_fn(int) -> nat, n: nat)
    requires
        forall|i: int| 0 <= i < n ==> #[trigger] f(i) == g(i),
    ensures
        sum_upto(f, n) == sum_upto(g, n),
    decreases n,
{
    if n > 0 {
        lemma_sum_agree(f, g, (n - 1) as nat);
    }
}

/// A sum of pointwise smaller terms is smaller.
pub proof fn lemma_sum_le(f: spec_fn(int) -> nat, g: spec_fn(int) -> nat, n: nat)
    requires
        forall|i: int| 0 <= i < n ==> #[trigger] f(i) <= g(i),
    ensures
        sum_upto(f, n) <= sum_upto(g, n),
    decreases n,
{
    if n > 0 {
        lemma_sum_le(f, g, (n - 1) as nat);
    }
}

/// A sum over fewer terms is smaller.
pub proof fn lemma_sum_prefix(f: spec_fn(int) -> nat, m: nat, n: nat)
    requires
        m <= n,
    ensures
        sum_upto(f, m) <= sum_upto(f, n),
    decreases n,
{
    if m < n {
        lemma_sum_prefix(f, m, (n - 1) as nat);
    }
}

/// The sum of pointwise sums is the sum of the sums.
pub proof fn lemma_sum_add(
    f: spec_fn(int) -> nat,
    g: spec_fn(int) -> nat,
    h: spec_fn(int) -> nat,
    n: nat,
)
    requires
        forall|i: int| 0 <= i < n ==> #[trigger] h(i) == f(i) + g(i),
    ensures
        sum_upto(h, n) == sum_upto(f, n) + sum_upto(g, n),
    decreases n,
{
    if n > 0 {
        lemma_sum_add(f, g, h, (n - 1) as nat);
    }
}

/// A sum whose terms vanish everywhere but at `at` is its term there.
pub proof fn lemma_sum_point(f: spec_fn(int) -> nat, n: nat, at: int)
    requires
        forall|i: int| 0 <= i < n && i != at ==> #[trigger] f(i) == 0,
    ensures
        sum_upto(f, n) == if 0 <= at < n {
            f(at)
        } else {
            0
        },
    decreases n,
{
    if n > 0 {
        lemma_sum_point(f, (n - 1) as nat, at);
    }
}

/// A sum is at least any one of its terms.
pub proof fn lemma_sum_term(f: spec_fn(int) -> nat, n: nat, i: int)
    requires
        0 <= i < n,
    ensures
        sum_upto(f, n) >= f(i),
    decreases n,
{
    if i < n - 1 {
        lemma_sum_term(f, (n - 1) as nat, i);
    }
}

/// A sum is at least any two of its terms together.
pub proof fn lemma_sum_two_terms(f: spec_fn(int) -> nat, n: nat, i: int, j: int)
    requires
        0 <= i < j < n,
    ensures
        sum_upto(f, n) >= f(i) + f(j),
    decreases n,
{
    if j < n - 1 {
        lemma_sum_two_terms(f, (n - 1) as nat, i, j);
    } else {
        lemma_sum_term(f, (n - 1) as nat, i);
    }
}

/// A sum of zeros is zero, and a zero sum has only zero terms.
pub proof fn lemma_sum_zero(f: spec_fn(int) -> nat, n: nat)
    ensures
        sum_upto(f, n) == 0 <==> forall|i: int| 0 <= i < n ==> #[trigger] f(i) == 0,
    decreases n,
{
    if n > 0 {
        lemma_sum_zero(f, (n - 1) as nat);
        if sum_upto(f, n) == 0 {
            assert forall|i: int| 0 <= i < n implies #[trigger] f(i) == 0 by {
                if i < n - 1 {
                } else {
                }
            }
        }
    }
}

} // verus!
