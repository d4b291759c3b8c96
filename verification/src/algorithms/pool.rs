//! A pool of solutions kept in order, the best first and the worst last.

use crate::algorithms::Solution;
use vstd::prelude::*;

verus! {

/// A solution as a number of colours and a colouring.
pub type SolutionView = (usize, Seq<usize>);

/// From position `i` on, `a` is no larger than `b` in the order of the
/// dictionary, given that they agree before `i`.
pub open spec fn lex_le_from(a: Seq<usize>, b: Seq<usize>, i: int) -> bool
    decreases a.len() - i,
{
    if i < 0 || i >= a.len() {
        true
    } else if i >= b.len() {
        false
    } else if a[i] != b[i] {
        a[i] < b[i]
    } else {
        lex_le_from(a, b, i + 1)
    }
}

/// `a` is no larger than `b` in the order of the dictionary.
pub open spec fn lex_le(a: Seq<usize>, b: Seq<usize>) -> bool {
    lex_le_from(a, b, 0)
}

/// `a` is no worse than `b`: it has fewer colours, or as many and a colouring
/// that is no larger in the order of the dictionary.
pub open spec fn solution_le(a: SolutionView, b: SolutionView) -> bool {
    a.0 < b.0 || (a.0 == b.0 && lex_le(a.1, b.1))
}

/// No solution of `s` is worse than a later one.
pub open spec fn is_sorted(s: Seq<SolutionView>) -> bool {
    forall|i: int, j: int| 0 <= i < j < s.len() ==> solution_le(#[trigger] s[i], #[trigger] s[j])
}

/// The solutions held in a vector, each with its colouring as a sequence.
pub open spec fn solutions_of(v: Seq<Solution>) -> Seq<SolutionView> {
    Seq::new(v.len(), |i: int| (v[i].0, v[i].1@))
}

/// The first position of `pool` whose solution is worse than `s`, or the
/// length of `pool` where none is.
pub open spec fn insert_point(pool: Seq<SolutionView>, s: SolutionView) -> int
    decreases pool.len(),
{
    if pool.len() == 0 {
        0
    } else if !solution_le(pool[0], s) {
        0
    } else {
        1 + insert_point(pool.drop_first(), s)
    }
}

/// `pool` with `s` put in before the first solution that is worse.
pub open spec fn sorted_insert(pool: Seq<SolutionView>, s: SolutionView) -> Seq<SolutionView> {
    pool.insert(insert_point(pool, s), s)
}

/// What a pool that keeps at most `capacity` solutions holds after `s` was
/// offered to it: `s` too where there was room; `s` in place of the worst
/// where there was none and `s` has fewer colours than the worst; and what it
/// held before otherwise.
pub open spec fn offered(pool: Seq<SolutionView>, s: SolutionView, capacity: nat) -> Seq<
    SolutionView,
> {
    if pool.len() < capacity {
        sorted_insert(pool, s)
    } else if pool.len() > 0 && s.0 < pool.last().0 {
        sorted_insert(pool.drop_last(), s)
    } else {
        pool
    }
}

/// What a pool that keeps at most `capacity` solutions holds after the
/// solutions of `all` were offered to it one after the other.
pub open spec fn kept_best(all: Seq<SolutionView>, capacity: nat) -> Seq<SolutionView>
    decreases all.len(),
{
    if all.len() == 0 {
        Seq::empty()
    } else {
        offered(kept_best(all.drop_last(), capacity), all.last(), capacity)
    }
}

/// Of two colourings one is no larger than the other.
pub proof fn lemma_lex_total(a: Seq<usize>, b: Seq<usize>, i: int)
    requires
        0 <= i,
    ensures
        lex_le_from(a, b, i) || lex_le_from(b, a, i),
    decreases a.len() - i,
{
    if i < a.len() && i < b.len() && a[i] == b[i] {
        lemma_lex_total(a, b, i + 1);
    }
}

/// The order of the dictionary is transitive.
pub proof fn lemma_lex_transitive(a: Seq<usize>, b: Seq<usize>, c: Seq<usize>, i: int)
    requires
        0 <= i,
        lex_le_from(a, b, i),
        lex_le_from(b, c, i),
    ensures
        lex_le_from(a, c, i),
    decreases a.len() - i,
{
    if i < a.len() {
        if a[i] == b[i] && b[i] == c[i] {
            lemma_lex_transitive(a, b, c, i + 1);
        }
    }
}

/// Of two solutions one is no worse than the other, and "no worse" is
/// transitive.
pub proof fn lemma_solution_order(a: SolutionView, b: SolutionView, c: SolutionView)
    ensures
        solution_le(a, b) || solution_le(b, a),
        solution_le(a, b) && solution_le(b, c) ==> solution_le(a, c),
{
    lemma_lex_total(a.1, b.1, 0);
    if solution_le(a, b) && solution_le(b, c) && a.0 == b.0 && b.0 == c.0 {
        lemma_lex_transitive(a.1, b.1, c.1, 0);
    }
}

/// The position before which no solution is worse than `s` and at which one
/// is, is the insert point.
pub proof fn lemma_insert_point(pool: Seq<SolutionView>, s: SolutionView, p: int)
    requires
        0 <= p <= pool.len(),
        forall|j: int| 0 <= j < p ==> solution_le(#[trigger] pool[j], s),
        p < pool.len() ==> !solution_le(pool[p], s),
    ensures
        insert_point(pool, s) == p,
    decreases pool.len(),
{
    if pool.len() > 0 && p > 0 {
        assert(solution_le(pool[0], s));
        let rest = pool.drop_first();
        assert forall|j: int| 0 <= j < p - 1 implies solution_le(#[trigger] rest[j], s) by {
            assert(rest[j] == pool[j + 1]);
        }
        lemma_insert_point(rest, s, p - 1);
    }
}

/// Where the insert point lies.
pub proof fn lemma_insert_point_range(pool: Seq<SolutionView>, s: SolutionView)
    ensures
        0 <= insert_point(pool, s) <= pool.len(),
        forall|j: int| 0 <= j < insert_point(pool, s) ==> solution_le(#[trigger] pool[j], s),
        insert_point(pool, s) < pool.len() ==> !solution_le(pool[insert_point(pool, s)], s),
    decreases pool.len(),
{
    if pool.len() > 0 && solution_le(pool[0], s) {
        let rest = pool.drop_first();
        lemma_insert_point_range(rest, s);
        assert forall|j: int| 0 <= j < insert_point(pool, s) implies solution_le(
            #[trigger] pool[j],
            s,
        ) by {
            if j > 0 {
                assert(rest[j - 1] == pool[j]);
            }
        }
        if insert_point(pool, s) < pool.len() {
            assert(rest[insert_point(rest, s)] == pool[insert_point(pool, s)]);
        }
    }
}

/// A sorted pool stays sorted when a solution is put in at its insert point.
pub proof fn lemma_sorted_insert(pool: Seq<SolutionView>, s: SolutionView)
    requires
        is_sorted(pool),
    ensures
        is_sorted(sorted_insert(pool, s)),
        sorted_insert(pool, s).len() == pool.len() + 1,
{
    let p = insert_point(pool, s);
    lemma_insert_point_range(pool, s);
    let grown = sorted_insert(pool, s);
    assert forall|i: int, j: int| 0 <= i < j < grown.len() implies solution_le(
        #[trigger] grown[i],
        #[trigger] grown[j],
    ) by {
        if j < p {
            assert(grown[i] == pool[i] && grown[j] == pool[j]);
        } else if j == p {
            assert(grown[i] == pool[i]);
        } else if i < p {
            assert(grown[i] == pool[i] && grown[j] == pool[j - 1]);
        } else if i == p {
            assert(grown[j] == pool[j - 1]);
            lemma_solution_order(s, pool[p], pool[j - 1]);
            lemma_solution_order(pool[p], s, s);
            if j - 1 > p {
                assert(solution_le(pool[p], pool[j - 1]));
            }
        } else {
            assert(grown[i] == pool[i - 1] && grown[j] == pool[j - 1]);
        }
    }
}

/// What was offered to a sorted pool leaves it sorted and within its
/// capacity.
pub proof fn lemma_offered(pool: Seq<SolutionView>, s: SolutionView, capacity: nat)
    requires
        is_sorted(pool),
        pool.len() <= capacity,
    ensures
        is_sorted(offered(pool, s, capacity)),
        offered(pool, s, capacity).len() <= capacity,
        pool.len() < capacity ==> offered(pool, s, capacity).len() == pool.len() + 1,
        pool.len() == capacity ==> offered(pool, s, capacity).len() == capacity,
        forall|j: int|
            0 <= j < offered(pool, s, capacity).len() ==> #[trigger] offered(pool, s, capacity)[j]
                == s || pool.contains(offered(pool, s, capacity)[j]),
{
    let after = offered(pool, s, capacity);
    if pool.len() < capacity {
        lemma_sorted_insert(pool, s);
        lemma_insert_point_range(pool, s);
        let p = insert_point(pool, s);
        assert forall|j: int| 0 <= j < after.len() implies #[trigger] after[j] == s
            || pool.contains(after[j]) by {
            if j < p {
                assert(after[j] == pool[j]);
            } else if j > p {
                assert(after[j] == pool[j - 1]);
            }
        }
    } else if pool.len() > 0 && s.0 < pool.last().0 {
        let rest = pool.drop_last();
        assert(is_sorted(rest)) by {
            assert forall|i: int, j: int| 0 <= i < j < rest.len() implies solution_le(
                #[trigger] rest[i],
                #[trigger] rest[j],
            ) by {
                assert(rest[i] == pool[i] && rest[j] == pool[j]);
            }
        }
        lemma_sorted_insert(rest, s);
        lemma_insert_point_range(rest, s);
        let p = insert_point(rest, s);
        assert forall|j: int| 0 <= j < after.len() implies #[trigger] after[j] == s
            || pool.contains(after[j]) by {
            if j < p {
                assert(after[j] == pool[j]);
            } else if j > p {
                assert(after[j] == pool[j - 1]);
            }
        }
    } else {
        assert forall|j: int| 0 <= j < after.len() implies #[trigger] after[j] == s
            || pool.contains(after[j]) by {}
    }
}

/// What is kept of the solutions offered is in order, is as many as were
/// offered up to the capacity, and was offered.
pub proof fn lemma_kept_best(all: Seq<SolutionView>, capacity: nat)
    ensures
        is_sorted(kept_best(all, capacity)),
        kept_best(all, capacity).len() == if all.len() < capacity {
            all.len()
        } else {
            capacity
        },
        forall|j: int|
            0 <= j < kept_best(all, capacity).len() ==> all.contains(
                #[trigger] kept_best(all, capacity)[j],
            ),
    decreases all.len(),
{
    if all.len() > 0 {
        let before = kept_best(all.drop_last(), capacity);
        let after = kept_best(all, capacity);
        lemma_kept_best(all.drop_last(), capacity);
        lemma_offered(before, all.last(), capacity);
        assert forall|j: int| 0 <= j < after.len() implies all.contains(#[trigger] after[j]) by {
            if after[j] == all.last() {
                assert(all[all.len() - 1] == after[j]);
            } else {
                assert(before.contains(after[j]));
                let k = choose|k: int| 0 <= k < before.len() && before[k] == after[j];
                assert(all.drop_last().contains(before[k]));
                let l = choose|l: int|
                    0 <= l < all.drop_last().len() && all.drop_last()[l] == before[k];
                assert(all[l] == after[j]);
            }
        }
    }
}

/// Whether `a` is no larger than `b` in the order of the dictionary.
pub fn lex_no_larger(a: &Vec<usize>, b: &Vec<usize>) -> (le: bool)
    ensures
        le == lex_le(a@, b@),
{
    let mut i: usize = 0;
    while i < a.len()
        invariant
            i <= a@.len(),
            lex_le(a@, b@) == lex_le_from(a@, b@, i as int),
        decreases a@.len() - i,
    {
        if i >= b.len() {
            return false;
        }
        if a[i] != b[i] {
            return a[i] < b[i];
        }
        i += 1;
    }
    true
}

/// Whether `a` is no worse than `b`.
pub fn no_worse(a: &Solution, b: &Solution) -> (le: bool)
    ensures
        le == solution_le((a.0, a.1@), (b.0, b.1@)),
{
    a.0 < b.0 || (a.0 == b.0 && lex_no_larger(&a.1, &b.1))
}

/// Puts `solution` into the solutions, which are in order, before the first
/// one that is worse.
pub fn insert_in_order(solutions: &mut Vec<Solution>, solution: Solution)
    requires
        is_sorted(solutions_of(old(solutions)@)),
    ensures
        is_sorted(solutions_of(final(solutions)@)),
        solutions_of(final(solutions)@) == sorted_insert(
            solutions_of(old(solutions)@),
            (solution.0, solution.1@),
        ),
{
    let ghost pool = solutions_of(solutions@);
    let ghost s = (solution.0, solution.1@);
    let mut p: usize = 0;
    while p < solutions.len() && no_worse(&solutions[p], &solution)
        invariant
            pool == solutions_of(solutions@),
            s == (solution.0, solution.1@),
            p <= solutions@.len(),
            forall|j: int| 0 <= j < p ==> solution_le(#[trigger] pool[j], s),
        decreases solutions@.len() - p,
    {
        p += 1;
    }
    proof {
        lemma_insert_point(pool, s, p as int);
        lemma_sorted_insert(pool, s);
    }
    solutions.insert(p, solution);
    assert(solutions_of(solutions@) =~= sorted_insert(pool, s));
}

/// Solutions in order, the best first. The worst, which is the one to give
/// way when a better one comes, is the last.
pub struct SolutionPool {
    solutions: Vec<Solution>,
}

impl View for SolutionPool {
    type V = Seq<SolutionView>;

    /// The solutions, the best first.
    closed spec fn view(&self) -> Seq<SolutionView> {
        solutions_of(self.solutions@)
    }
}

impl SolutionPool {
    /// The solutions are in order.
    pub open spec fn wf(&self) -> bool {
        is_sorted(self@)
    }

    /// A pool without solutions.
    pub fn new() -> (pool: Self)
        ensures
            pool.wf(),
            pool@.len() == 0,
    {
        SolutionPool { solutions: Vec::new() }
    }

    /// The number of solutions.
    pub fn len(&self) -> (len: usize)
        ensures
            len == self@.len(),
    {
        self.solutions.len()
    }

    /// The worst solution, if there is one.
    pub fn peek(&self) -> (worst: Option<&Solution>)
        ensures
            self@.len() == 0 ==> worst is None,
            self@.len() > 0 ==> worst is Some && (worst.unwrap().0, worst.unwrap().1@)
                == self@.last(),
    {
        if self.solutions.len() == 0 {
            None
        } else {
            Some(&self.solutions[self.solutions.len() - 1])
        }
    }

    /// Takes the worst solution out, if there is one.
    pub fn pop(&mut self) -> (worst: Option<Solution>)
        requires
            old(self).wf(),
        ensures
            final(self).wf(),
            old(self)@.len() == 0 ==> worst is None && final(self)@ == old(self)@,
            old(self)@.len() > 0 ==> worst is Some && (worst.unwrap().0, worst.unwrap().1@) == old(
                self,
            )@.last() && final(self)@ == old(self)@.drop_last(),
    {
        let worst = self.solutions.pop();
        proof {
            if old(self)@.len() > 0 {
                assert(self@ =~= old(self)@.drop_last());
                assert forall|i: int, j: int| 0 <= i < j < self@.len() implies solution_le(
                    #[trigger] self@[i],
                    #[trigger] self@[j],
                ) by {
                    assert(self@[i] == old(self)@[i] && self@[j] == old(self)@[j]);
                }
            } else {
                assert(self@ =~= old(self)@);
            }
        }
        worst
    }

    /// Puts a solution in, before the first one that is worse.
    pub fn push(&mut self, solution: Solution)
        requires
            old(self).wf(),
        ensures
            final(self).wf(),
            final(self)@ == sorted_insert(old(self)@, (solution.0, solution.1@)),
    {
        insert_in_order(&mut self.solutions, solution);
    }

    /// Offers a solution to a pool that keeps at most `capacity` of them: it
    /// is put in where there is room, and takes the place of the worst where
    /// there is none and it has fewer colours than the worst.
    pub fn try_insert(&mut self, solution: Solution, capacity: usize)
        requires
            old(self).wf(),
            old(self)@.len() <= capacity,
        ensures
            final(self).wf(),
            final(self)@ == offered(old(self)@, (solution.0, solution.1@), capacity as nat),
            final(self)@.len() <= capacity,
    {
        proof {
            lemma_offered(self@, (solution.0, solution.1@), capacity as nat);
        }
        if self.len() < capacity {
            self.push(solution);
        } else {
            let replace = match self.peek() {
                Some(worst) => solution.0 < worst.0,
                None => false,
            };
            if replace {
                self.pop();
                self.push(solution);
            }
        }
    }

    /// The solutions, the best first.
    pub fn into_sorted_vec(self) -> (solutions: Vec<Solution>)
        ensures
            solutions_of(solutions@) == self@,
    {
        self.solutions
    }
}

} // verus!
