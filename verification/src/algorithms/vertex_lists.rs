//! Lists of vertices without repetitions, and what is left of one when some
//! of its vertices are taken out.

use crate::algorithms::class_list::lemma_remove_membership;
use crate::graph::adj_list::slice_contains;
use vstd::prelude::*;

verus! {

/// The entries of `s` that satisfy `keep`, in their order.
pub open spec fn kept_if(s: Seq<usize>, keep: spec_fn(usize) -> bool) -> Seq<usize>
    decreases s.len(),
{
    if s.len() == 0 {
        Seq::empty()
    } else if keep(s.last()) {
        kept_if(s.drop_last(), keep).push(s.last())
    } else {
        kept_if(s.drop_last(), keep)
    }
}

/// The predicate "does not occur in `removed`".
pub open spec fn is_absent(removed: Seq<usize>) -> spec_fn(usize) -> bool {
    |x: usize| !removed.contains(x)
}

/// The predicate "is neither `vertex` nor one of `neighbors`".
pub open spec fn is_apart(neighbors: Seq<usize>, vertex: usize) -> spec_fn(usize) -> bool {
    |x: usize| x != vertex && !neighbors.contains(x)
}

/// Every entry of `s` is one of `n` vertices, and none stands in it twice.
pub open spec fn is_vertex_list(s: Seq<usize>, n: nat) -> bool {
    &&& s.no_duplicates()
    &&& forall|k: int| 0 <= k < s.len() ==> (#[trigger] s[k]) < n
}

/// What `kept_if` keeps: exactly the entries that satisfy the predicate, and
/// no entry more often than before.
pub proof fn lemma_kept_if(s: Seq<usize>, keep: spec_fn(usize) -> bool)
    ensures
        kept_if(s, keep).len() <= s.len(),
        forall|u: usize| #[trigger] kept_if(s, keep).contains(u) <==> s.contains(u) && keep(u),
        s.no_duplicates() ==> kept_if(s, keep).no_duplicates(),
    decreases s.len(),
{
    if s.len() > 0 {
        let t = s.drop_last();
        let x = s.last();
        lemma_kept_if(t, keep);
        let kt = kept_if(t, keep);
        let ks = kept_if(s, keep);
        assert forall|u: usize| #[trigger] ks.contains(u) <==> s.contains(u) && keep(u) by {
            if ks.contains(u) {
                let k = choose|k: int| 0 <= k < ks.len() && ks[k] == u;
                if k < kt.len() {
                    assert(kt[k] == u);
                    assert(kt.contains(u));
                    let j = choose|j: int| 0 <= j < t.len() && t[j] == u;
                    assert(s[j] == u);
                } else {
                    assert(s[s.len() - 1] == u);
                }
            }
            if s.contains(u) && keep(u) {
                let j = choose|j: int| 0 <= j < s.len() && s[j] == u;
                if j < t.len() {
                    assert(t[j] == u);
                    assert(kt.contains(u));
                    let k = choose|k: int| 0 <= k < kt.len() && kt[k] == u;
                    assert(ks[k] == u);
                } else {
                    assert(ks[ks.len() - 1] == u);
                }
            }
        }
        if s.no_duplicates() {
            assert(t.no_duplicates());
            if keep(x) {
                if kt.contains(x) {
                    let j = choose|j: int| 0 <= j < t.len() && t[j] == x;
                    assert(s[j] == s[s.len() - 1]);
                }
                assert forall|i: int, j: int|
                    0 <= i < ks.len() && 0 <= j < ks.len() && i != j implies ks[i] != ks[j] by {
                    if i < kt.len() {
                        assert(kt.contains(ks[i]));
                    }
                    if j < kt.len() {
                        assert(kt.contains(ks[j]));
                    }
                }
            }
        }
    }
}

/// Where an entry fails the predicate, fewer entries are kept than there are.
pub proof fn lemma_kept_if_shorter(s: Seq<usize>, keep: spec_fn(usize) -> bool, k: int)
    requires
        0 <= k < s.len(),
        !keep(s[k]),
    ensures
        kept_if(s, keep).len() < s.len(),
    decreases s.len(),
{
    lemma_kept_if(s.drop_last(), keep);
    if k < s.len() - 1 {
        lemma_kept_if_shorter(s.drop_last(), keep, k);
    }
}

/// Keeping from a prefix one entry longer.
pub proof fn lemma_kept_if_step(s: Seq<usize>, keep: spec_fn(usize) -> bool, k: int)
    requires
        0 <= k < s.len(),
    ensures
        kept_if(s.take(k + 1), keep) == if keep(s[k]) {
            kept_if(s.take(k), keep).push(s[k])
        } else {
            kept_if(s.take(k), keep)
        },
{
    assert(s.take(k + 1).drop_last() =~= s.take(k));
}

/// A list of vertices without repetitions is no longer than there are
/// vertices.
pub proof fn lemma_vertex_list_bound(s: Seq<usize>, n: nat)
    requires
        is_vertex_list(s, n),
    ensures
        s.len() <= n,
    decreases n,
{
    if n == 0 {
        if s.len() > 0 {
            assert(s[0] < n);
        }
    } else {
        let top = (n - 1) as usize;
        if n - 1 <= usize::MAX && s.contains(top) {
            let k = choose|k: int| 0 <= k < s.len() && s[k] == top;
            lemma_remove_membership(s, k);
            let r = s.remove(k);
            assert forall|j: int| 0 <= j < r.len() implies (#[trigger] r[j]) < n - 1 by {
                assert(r.contains(r[j]));
                assert(s.contains(r[j]));
                let i = choose|i: int| 0 <= i < s.len() && s[i] == r[j];
                assert(s[i] < n);
            }
            lemma_vertex_list_bound(r, (n - 1) as nat);
        } else {
            assert forall|j: int| 0 <= j < s.len() implies (#[trigger] s[j]) < n - 1 by {
                assert(s[j] < n);
                assert(s.contains(s[j]));
            }
            lemma_vertex_list_bound(s, (n - 1) as nat);
        }
    }
}

/// The entries of `list` that do not occur in `removed`, in their order.
pub fn without(list: &[usize], removed: &[usize]) -> (kept: Vec<usize>)
    ensures
        kept@ == kept_if(list@, is_absent(removed@)),
{
    let mut kept: Vec<usize> = Vec::new();
    let mut k: usize = 0;
    while k < list.len()
        invariant
            k <= list@.len(),
            kept@ == kept_if(list@.take(k as int), is_absent(removed@)),
        decreases list@.len() - k,
    {
        proof {
            lemma_kept_if_step(list@, is_absent(removed@), k as int);
        }
        if !slice_contains(removed, list[k]) {
            kept.push(list[k]);
        }
        k += 1;
    }
    assert(list@.take(k as int) =~= list@);
    kept
}

/// The entries of `list` that are neither `vertex` nor one of `neighbors`, in
/// their order.
pub fn apart_from(list: &[usize], neighbors: &[usize], vertex: usize) -> (kept: Vec<usize>)
    ensures
        kept@ == kept_if(list@, is_apart(neighbors@, vertex)),
{
    let mut kept: Vec<usize> = Vec::new();
    let mut k: usize = 0;
    while k < list.len()
        invariant
            k <= list@.len(),
            kept@ == kept_if(list@.take(k as int), is_apart(neighbors@, vertex)),
        decreases list@.len() - k,
    {
        proof {
            lemma_kept_if_step(list@, is_apart(neighbors@, vertex), k as int);
        }
        if list[k] != vertex && !slice_contains(neighbors, list[k]) {
            kept.push(list[k]);
        }
        k += 1;
    }
    assert(list@.take(k as int) =~= list@);
    kept
}

} // verus!
