//! Class lists: a colouring written as one list of vertices per colour.

use vstd::prelude::*;

verus! {

/// The classes held in vectors, as sequences of vertices.
pub open spec fn lists_of(classes: Seq<Vec<usize>>) -> Seq<Seq<usize>> {
    Seq::new(classes.len(), |i: int| classes[i]@)
}

/// The colour that a class list gives to `v`: the number of the last class
/// that holds `v`, counted from one, or zero where no class holds it.
pub open spec fn color_in(classes: Seq<Seq<usize>>, v: usize) -> nat
    decreases classes.len(),
{
    if classes.len() == 0 {
        0
    } else if classes.last().contains(v) {
        classes.len()
    } else {
        color_in(classes.drop_last(), v)
    }
}

/// The colouring of `n` vertices that a class list stands for.
pub open spec fn class_coloring(classes: Seq<Seq<usize>>, n: nat) -> Seq<usize> {
    Seq::new(n, |v: int| color_in(classes, v as usize) as usize)
}

/// Every entry of the class list is one of `n` vertices, and no vertex stands
/// in it twice: not twice in one class, and not in two classes.
pub open spec fn classes_disjoint(classes: Seq<Seq<usize>>, n: nat) -> bool {
    &&& forall|i: int, k: int|
        0 <= i < classes.len() && 0 <= k < classes[i].len() ==> (#[trigger] classes[i][k]) < n
    &&& forall|i: int| 0 <= i < classes.len() ==> (#[trigger] classes[i]).no_duplicates()
    &&& forall|i: int, j: int, u: usize|
        0 <= i < classes.len() && 0 <= j < classes.len() && i != j
            && #[trigger] classes[i].contains(u) ==> !#[trigger] classes[j].contains(u)
}

/// The class list holds each of `n` vertices exactly once.
pub open spec fn is_partition(classes: Seq<Seq<usize>>, n: nat) -> bool {
    &&& classes_disjoint(classes, n)
    &&& forall|v: usize| v < n ==> color_in(classes, v) > 0
}

/// The colour of `v` names a class that holds `v`, where it is not zero, and
/// no later class holds `v`.
pub proof fn lemma_color_in(classes: Seq<Seq<usize>>, v: usize)
    ensures
        color_in(classes, v) <= classes.len(),
        color_in(classes, v) > 0 ==> classes[color_in(classes, v) - 1].contains(v),
        color_in(classes, v) == 0 ==> forall|i: int|
            0 <= i < classes.len() ==> !(#[trigger] classes[i]).contains(v),
    decreases classes.len(),
{
    if classes.len() > 0 {
        lemma_color_in(classes.drop_last(), v);
        if !classes.last().contains(v) {
            let rest = classes.drop_last();
            if color_in(classes, v) == 0 {
                assert forall|i: int| 0 <= i < classes.len() implies !(
                #[trigger] classes[i]).contains(v) by {
                    if i < rest.len() {
                        assert(rest[i] == classes[i]);
                    }
                }
            }
        }
    }
}

/// In a class list without repetitions a vertex has the colour of the class
/// that holds it.
pub proof fn lemma_color_in_class(classes: Seq<Seq<usize>>, n: nat, i: int, u: usize)
    requires
        classes_disjoint(classes, n),
        0 <= i < classes.len(),
        classes[i].contains(u),
    ensures
        color_in(classes, u) == i + 1,
{
    lemma_color_in(classes, u);
}

/// In a class list without repetitions a vertex has the colour of the class
/// that holds it.
pub proof fn lemma_color_in_member(classes: Seq<Seq<usize>>, n: nat, i: int, k: int)
    requires
        classes_disjoint(classes, n),
        0 <= i < classes.len(),
        0 <= k < classes[i].len(),
    ensures
        color_in(classes, classes[i][k]) == i + 1,
{
    assert(classes[i].contains(classes[i][k]));
    lemma_color_in_class(classes, n, i, classes[i][k]);
}

/// In a class list without repetitions two positions that hold one vertex are
/// one position.
pub proof fn lemma_disjoint_positions(classes: Seq<Seq<usize>>, n: nat)
    requires
        classes_disjoint(classes, n),
    ensures
        forall|i: int, k: int, j: int, l: int|
            0 <= i < classes.len() && 0 <= k < classes[i].len() && 0 <= j < classes.len() && 0
                <= l < classes[j].len() && (#[trigger] classes[i][k]) == (
            #[trigger] classes[j][l]) ==> i == j && k == l,
{
    assert forall|i: int, k: int, j: int, l: int|
        0 <= i < classes.len() && 0 <= k < classes[i].len() && 0 <= j < classes.len() && 0 <= l
            < classes[j].len() && (#[trigger] classes[i][k]) == (
        #[trigger] classes[j][l]) implies i == j && k == l by {
        assert(classes[i].contains(classes[i][k]));
        assert(classes[j].contains(classes[j][l]));
    }
}

/// The colour of a vertex depends only on which classes hold it.
pub proof fn lemma_color_in_same_membership(
    first: Seq<Seq<usize>>,
    second: Seq<Seq<usize>>,
    u: usize,
)
    requires
        first.len() == second.len(),
        forall|i: int|
            0 <= i < first.len() ==> (#[trigger] first[i]).contains(u) == second[i].contains(u),
    ensures
        color_in(first, u) == color_in(second, u),
    decreases first.len(),
{
    if first.len() > 0 {
        assert(first[first.len() - 1].contains(u) == second[first.len() - 1].contains(u));
        let a = first.drop_last();
        let b = second.drop_last();
        assert forall|i: int| 0 <= i < a.len() implies (#[trigger] a[i]).contains(u)
            == b[i].contains(u) by {
            assert(first[i].contains(u) == second[i].contains(u));
        }
        lemma_color_in_same_membership(a, b, u);
    }
}

/// The vertices below `upto` that have the colour `color`, in ascending
/// order.
pub open spec fn vertices_with(coloring: Seq<usize>, color: usize, upto: int) -> Seq<usize>
    decreases upto,
{
    if upto <= 0 {
        Seq::empty()
    } else if coloring[upto - 1] == color {
        vertices_with(coloring, color, upto - 1).push((upto - 1) as usize)
    } else {
        vertices_with(coloring, color, upto - 1)
    }
}

/// The class list of `num_classes` classes that stands for `coloring`: the
/// class of each colour holds the vertices of that colour in ascending order.
pub open spec fn class_list_of(coloring: Seq<usize>, num_classes: nat) -> Seq<Seq<usize>> {
    Seq::new(num_classes, |i: int| vertices_with(coloring, (i + 1) as usize, coloring.len() as int))
}

/// The largest colour below `upto`, and zero where there is no vertex.
pub open spec fn max_color(coloring: Seq<usize>, upto: int) -> usize
    decreases upto,
{
    if upto <= 0 {
        0
    } else if coloring[upto - 1] > max_color(coloring, upto - 1) {
        coloring[upto - 1]
    } else {
        max_color(coloring, upto - 1)
    }
}

/// No colour is larger than the largest.
pub proof fn lemma_max_color(coloring: Seq<usize>, upto: int)
    requires
        0 <= upto <= coloring.len(),
    ensures
        forall|v: int| 0 <= v < upto ==> (#[trigger] coloring[v]) <= max_color(coloring, upto),
    decreases upto,
{
    if upto > 0 {
        lemma_max_color(coloring, upto - 1);
    }
}

/// The vertices listed for a colour are exactly the vertices of that colour,
/// each once.
pub proof fn lemma_vertices_with(coloring: Seq<usize>, color: usize, upto: int)
    requires
        0 <= upto <= coloring.len(),
        coloring.len() <= usize::MAX,
    ensures
        vertices_with(coloring, color, upto).no_duplicates(),
        forall|k: int|
            0 <= k < vertices_with(coloring, color, upto).len() ==> (#[trigger] vertices_with(
                coloring,
                color,
                upto,
            )[k]) < upto,
        forall|v: usize|
            vertices_with(coloring, color, upto).contains(v) <==> v < upto && coloring[v as int]
                == color,
    decreases upto,
{
    if upto > 0 {
        lemma_vertices_with(coloring, color, upto - 1);
        let before = vertices_with(coloring, color, upto - 1);
        let now = vertices_with(coloring, color, upto);
        let last = (upto - 1) as usize;
        assert forall|v: usize| now.contains(v) <==> v < upto && coloring[v as int] == color by {
            if now.contains(v) {
                let k = choose|k: int| 0 <= k < now.len() && now[k] == v;
                if k < before.len() {
                    assert(before[k] == v);
                    assert(before.contains(v));
                }
            }
            if v < upto && coloring[v as int] == color {
                if v == last {
                    assert(now[now.len() - 1] == v);
                } else {
                    assert(before.contains(v));
                    let k = choose|k: int| 0 <= k < before.len() && before[k] == v;
                    assert(now[k] == v);
                }
            }
        }
        if coloring[upto - 1] == color {
            assert forall|i: int, j: int|
                0 <= i < now.len() && 0 <= j < now.len() && i != j implies now[i] != now[j] by {
                if i < before.len() {
                    assert(before[i] < upto - 1);
                }
                if j < before.len() {
                    assert(before[j] < upto - 1);
                }
            }
        }
    }
}

/// The class list of a colouring holds no vertex twice, and the vertex `v`
/// in the class of its colour where it has one that the list has a class for.
pub proof fn lemma_class_list_of(coloring: Seq<usize>, num_classes: nat)
    requires
        coloring.len() <= usize::MAX,
        num_classes < usize::MAX,
    ensures
        classes_disjoint(class_list_of(coloring, num_classes), coloring.len()),
        forall|i: int, v: usize|
            0 <= i < num_classes ==> (#[trigger] class_list_of(coloring, num_classes)[i].contains(
                v,
            ) <==> v < coloring.len() && coloring[v as int] == i + 1),
{
    let classes = class_list_of(coloring, num_classes);
    let n = coloring.len() as int;
    assert forall|i: int, v: usize| 0 <= i < num_classes implies (
    #[trigger] classes[i].contains(v) <==> v < coloring.len() && coloring[v as int] == i + 1) by {
        lemma_vertices_with(coloring, (i + 1) as usize, n);
    }
    assert forall|i: int, k: int| 0 <= i < classes.len() && 0 <= k < classes[i].len() implies (
    #[trigger] classes[i][k]) < coloring.len() by {
        lemma_vertices_with(coloring, (i + 1) as usize, n);
    }
    assert forall|i: int| 0 <= i < classes.len() implies (#[trigger] classes[i]).no_duplicates() by {
        lemma_vertices_with(coloring, (i + 1) as usize, n);
    }
}

/// What is left of a list without repetitions when one position is taken out.
pub proof fn lemma_remove_membership(s: Seq<usize>, k: int)
    requires
        s.no_duplicates(),
        0 <= k < s.len(),
    ensures
        s.remove(k).no_duplicates(),
        forall|u: usize| s.remove(k).contains(u) <==> s.contains(u) && u != s[k],
{
    let r = s.remove(k);
    assert forall|u: usize| r.contains(u) <==> s.contains(u) && u != s[k] by {
        if r.contains(u) {
            let j = choose|j: int| 0 <= j < r.len() && r[j] == u;
            if j < k {
                assert(s[j] == u);
            } else {
                assert(s[j + 1] == u);
            }
        }
        if s.contains(u) && u != s[k] {
            let j = choose|j: int| 0 <= j < s.len() && s[j] == u;
            if j < k {
                assert(r[j] == u);
            } else {
                assert(r[j - 1] == u);
            }
        }
    }
    assert forall|i: int, j: int| 0 <= i < r.len() && 0 <= j < r.len() && i != j implies r[i]
        != r[j] by {
        let i2 = if i < k { i } else { i + 1 };
        let j2 = if j < k { j } else { j + 1 };
        assert(r[i] == s[i2] && r[j] == s[j2]);
    }
}

/// What a list without repetitions holds after a new entry was appended.
pub proof fn lemma_push_membership(s: Seq<usize>, x: usize)
    requires
        s.no_duplicates(),
        !s.contains(x),
    ensures
        s.push(x).no_duplicates(),
        forall|u: usize| s.push(x).contains(u) <==> s.contains(u) || u == x,
{
    let r = s.push(x);
    assert forall|u: usize| r.contains(u) <==> s.contains(u) || u == x by {
        if r.contains(u) {
            let j = choose|j: int| 0 <= j < r.len() && r[j] == u;
            if j < s.len() {
                assert(s[j] == u);
            }
        }
        if s.contains(u) {
            let j = choose|j: int| 0 <= j < s.len() && s[j] == u;
            assert(r[j] == u);
        }
        if u == x {
            assert(r[s.len() as int] == x);
        }
    }
    assert forall|i: int, j: int| 0 <= i < r.len() && 0 <= j < r.len() && i != j implies r[i]
        != r[j] by {
        if i < s.len() {
            assert(s.contains(r[i]));
        }
        if j < s.len() {
            assert(s.contains(r[j]));
        }
    }
}

/// The class list after the entry at `k` of class `a`, which holds `v`, was
/// taken out and `v` appended to class `b`.
pub open spec fn move_vertex(classes: Seq<Seq<usize>>, v: usize, a: int, k: int, b: int) -> Seq<
    Seq<usize>,
> {
    classes.update(a, classes[a].remove(k)).update(b, classes[b].push(v))
}

/// Moving a vertex from its class to another keeps a partition, and changes
/// the colour of that vertex alone.
pub proof fn lemma_move_vertex(classes: Seq<Seq<usize>>, n: nat, v: usize, a: int, k: int, b: int)
    requires
        is_partition(classes, n),
        n <= usize::MAX,
        0 <= a < classes.len(),
        0 <= b < classes.len(),
        a != b,
        0 <= k < classes[a].len(),
        classes[a][k] == v,
        classes.len() < usize::MAX,
    ensures
        is_partition(move_vertex(classes, v, a, k, b), n),
        class_coloring(move_vertex(classes, v, a, k, b), n) == class_coloring(classes, n).update(
            v as int,
            (b + 1) as usize,
        ),
{
    let moved = move_vertex(classes, v, a, k, b);
    assert(classes[a].contains(v));
    assert(!classes[b].contains(v));
    lemma_remove_membership(classes[a], k);
    lemma_push_membership(classes[b], v);
    assert forall|i: int, u: usize| 0 <= i < moved.len() implies (#[trigger] moved[i].contains(u))
        == (if u == v {
        i == b
    } else {
        classes[i].contains(u)
    }) by {
        if u == v && i != a && i != b {
            assert(moved[i] == classes[i]);
        }
    }
    assert forall|i: int, l: int| 0 <= i < moved.len() && 0 <= l < moved[i].len() implies (
    #[trigger] moved[i][l]) < n by {
        assert(moved[i].contains(moved[i][l]));
        let u = moved[i][l];
        if u != v {
            assert(classes[i].contains(u));
            let m = choose|m: int| 0 <= m < classes[i].len() && classes[i][m] == u;
            assert(classes[i][m] < n);
        } else {
            assert(classes[a][k] < n);
        }
    }
    assert forall|i: int| 0 <= i < moved.len() implies (#[trigger] moved[i]).no_duplicates() by {
        assert(classes[i].no_duplicates());
    }
    assert(classes_disjoint(moved, n));
    assert forall|u: usize| u < n implies color_in(moved, u) == (if u == v {
        b + 1
    } else {
        color_in(classes, u) as int
    }) by {
        if u == v {
            lemma_color_in_class(moved, n, b, v);
        } else {
            lemma_color_in_same_membership(moved, classes, u);
        }
    }
    assert(class_coloring(moved, n) =~= class_coloring(classes, n).update(
        v as int,
        (b + 1) as usize,
    ));
}

/// Empty classes at the end of a class list change no colour.
pub proof fn lemma_color_in_padding(short: Seq<Seq<usize>>, long: Seq<Seq<usize>>, u: usize)
    requires
        short.len() <= long.len(),
        forall|i: int| 0 <= i < short.len() ==> #[trigger] long[i] == short[i],
        forall|i: int| short.len() <= i < long.len() ==> (#[trigger] long[i]).len() == 0,
    ensures
        color_in(long, u) == color_in(short, u),
    decreases long.len(),
{
    if short.len() < long.len() {
        let rest = long.drop_last();
        assert(long[long.len() - 1].len() == 0);
        assert forall|i: int| 0 <= i < short.len() implies #[trigger] rest[i] == short[i] by {
            assert(long[i] == short[i]);
        }
        assert forall|i: int| short.len() <= i < rest.len() implies (#[trigger] rest[i]).len()
            == 0 by {
            assert(long[i].len() == 0);
        }
        lemma_color_in_padding(short, rest, u);
    } else {
        assert(long =~= short);
    }
}

/// Empty classes at the end of a class list can be added or dropped: what is
/// left is a partition as before and stands for the same colouring.
pub proof fn lemma_partition_padding(short: Seq<Seq<usize>>, long: Seq<Seq<usize>>, n: nat)
    requires
        short.len() <= long.len(),
        forall|i: int| 0 <= i < short.len() ==> #[trigger] long[i] == short[i],
        forall|i: int| short.len() <= i < long.len() ==> (#[trigger] long[i]).len() == 0,
    ensures
        is_partition(short, n) <==> is_partition(long, n),
        class_coloring(short, n) == class_coloring(long, n),
{
    assert forall|u: usize| color_in(long, u) == color_in(short, u) by {
        lemma_color_in_padding(short, long, u);
    }
    assert(class_coloring(short, n) =~= class_coloring(long, n));
    if is_partition(short, n) {
        assert forall|i: int, k: int| 0 <= i < long.len() && 0 <= k < long[i].len() implies (
        #[trigger] long[i][k]) < n by {
            assert(long[i] == short[i]);
        }
        assert forall|i: int| 0 <= i < long.len() implies (#[trigger] long[i]).no_duplicates() by {
            if i < short.len() {
                assert(long[i] == short[i]);
            }
        }
        assert forall|i: int, j: int, u: usize|
            0 <= i < long.len() && 0 <= j < long.len() && i != j
                && #[trigger] long[i].contains(u) implies !#[trigger] long[j].contains(u) by {
            assert(long[i] == short[i]);
            if j < short.len() {
                assert(long[j] == short[j]);
            }
        }
    }
    if is_partition(long, n) {
        assert forall|i: int, k: int| 0 <= i < short.len() && 0 <= k < short[i].len() implies (
        #[trigger] short[i][k]) < n by {
            assert(long[i] == short[i]);
        }
        assert forall|i: int| 0 <= i < short.len() implies (
        #[trigger] short[i]).no_duplicates() by {
            assert(long[i] == short[i]);
        }
        assert forall|i: int, j: int, u: usize|
            0 <= i < short.len() && 0 <= j < short.len() && i != j
                && #[trigger] short[i].contains(u) implies !#[trigger] short[j].contains(u) by {
            assert(long[i] == short[i]);
            assert(long[j] == short[j]);
        }
    }
}

/// Class `a` is the smallest class that is not empty among the first `k`
/// without class `skip`; of several of that size it is the last.
pub open spec fn is_smallest_class(classes: Seq<Seq<usize>>, k: int, skip: int, a: int) -> bool {
    &&& 0 <= a < k
    &&& a != skip
    &&& classes[a].len() > 0
    &&& forall|j: int|
        0 <= j < k && j != skip && (#[trigger] classes[j]).len() > 0 ==> classes[a].len()
            < classes[j].len() || (classes[a].len() == classes[j].len() && j <= a)
}

/// The classes among the first `upto` that are not empty and are neither
/// `first` nor `second`, in their order.
pub open spec fn carried_classes(
    classes: Seq<Seq<usize>>,
    first: int,
    second: int,
    upto: int,
) -> Seq<Seq<usize>>
    decreases upto,
{
    if upto <= 0 {
        Seq::empty()
    } else if upto - 1 != first && upto - 1 != second && classes[upto - 1].len() > 0 {
        carried_classes(classes, first, second, upto - 1).push(classes[upto - 1])
    } else {
        carried_classes(classes, first, second, upto - 1)
    }
}

/// The class list with the classes `first` and `second` merged into one,
/// which comes first, followed by the other classes that are not empty.
pub open spec fn merged_classes(classes: Seq<Seq<usize>>, first: int, second: int) -> Seq<
    Seq<usize>,
> {
    seq![classes[first] + classes[second]] + carried_classes(
        classes,
        first,
        second,
        classes.len() as int,
    )
}

/// The indices of the classes that `carried_classes` lists, in their order.
pub open spec fn carried_indices(
    classes: Seq<Seq<usize>>,
    first: int,
    second: int,
    upto: int,
) -> Seq<int>
    decreases upto,
{
    if upto <= 0 {
        Seq::empty()
    } else if upto - 1 != first && upto - 1 != second && classes[upto - 1].len() > 0 {
        carried_indices(classes, first, second, upto - 1).push(upto - 1)
    } else {
        carried_indices(classes, first, second, upto - 1)
    }
}

/// The carried indices ascend, name classes that are not empty and are
/// neither `first` nor `second`, and leave none of those out.
pub proof fn lemma_carried_indices(classes: Seq<Seq<usize>>, first: int, second: int, upto: int)
    requires
        0 <= upto <= classes.len(),
    ensures
        forall|r: int|
            0 <= r < carried_indices(classes, first, second, upto).len() ==> {
                let o = #[trigger] carried_indices(classes, first, second, upto)[r];
                0 <= o < upto && o != first && o != second && classes[o].len() > 0
            },
        forall|r1: int, r2: int|
            0 <= r1 < r2 < carried_indices(classes, first, second, upto).len()
                ==> #[trigger] carried_indices(classes, first, second, upto)[r1]
                < #[trigger] carried_indices(classes, first, second, upto)[r2],
        forall|i: int|
            0 <= i < upto && i != first && i != second && (#[trigger] classes[i]).len() > 0
                ==> carried_indices(classes, first, second, upto).contains(i),
    decreases upto,
{
    if upto > 0 {
        lemma_carried_indices(classes, first, second, upto - 1);
        let before = carried_indices(classes, first, second, upto - 1);
        let now = carried_indices(classes, first, second, upto);
        assert forall|i: int|
            0 <= i < upto && i != first && i != second && (#[trigger] classes[i]).len()
                > 0 implies now.contains(i) by {
            if i < upto - 1 {
                assert(before.contains(i));
                let r = choose|r: int| 0 <= r < before.len() && before[r] == i;
                assert(now[r] == i);
            } else {
                assert(now[now.len() - 1] == i);
            }
        }
    }
}

/// There are fewer carried classes than classes that may hold a vertex.
pub proof fn lemma_carried_count(
    classes: Seq<Seq<usize>>,
    first: int,
    second: int,
    upto: int,
    k: int,
)
    requires
        0 <= upto <= classes.len(),
        0 <= first < k,
        0 <= second < k,
        first != second,
        k <= classes.len(),
        forall|i: int| k <= i < classes.len() ==> (#[trigger] classes[i]).len() == 0,
    ensures
        carried_indices(classes, first, second, upto).len() + (if first < upto {
            1int
        } else {
            0int
        }) + (if second < upto {
            1int
        } else {
            0int
        }) <= if upto < k {
            upto
        } else {
            k
        },
    decreases upto,
{
    if upto > 0 {
        lemma_carried_count(classes, first, second, upto - 1, k);
        if upto - 1 >= k {
            assert(classes[upto - 1].len() == 0);
        }
    }
}

/// Each carried class is the class that its index names.
pub proof fn lemma_carried_classes(classes: Seq<Seq<usize>>, first: int, second: int, upto: int)
    requires
        0 <= upto <= classes.len(),
    ensures
        carried_classes(classes, first, second, upto).len() == carried_indices(
            classes,
            first,
            second,
            upto,
        ).len(),
        forall|r: int|
            0 <= r < carried_classes(classes, first, second, upto).len()
                ==> #[trigger] carried_classes(classes, first, second, upto)[r]
                == classes[carried_indices(classes, first, second, upto)[r]],
    decreases upto,
{
    if upto > 0 {
        lemma_carried_classes(classes, first, second, upto - 1);
    }
}

/// Classes that are empty, after the first `k`, are not carried.
pub proof fn lemma_carried_ignores_empty(
    classes: Seq<Seq<usize>>,
    first: int,
    second: int,
    k: int,
    upto: int,
)
    requires
        0 <= k <= upto <= classes.len(),
        forall|i: int| k <= i < classes.len() ==> (#[trigger] classes[i]).len() == 0,
    ensures
        carried_classes(classes, first, second, upto) == carried_classes(classes, first, second, k),
    decreases upto,
{
    if k < upto {
        assert(classes[upto - 1].len() == 0);
        lemma_carried_ignores_empty(classes, first, second, k, upto - 1);
    }
}

/// Class lists that agree on their first `k` classes carry the same classes
/// of those.
pub proof fn lemma_carried_agree(
    a: Seq<Seq<usize>>,
    b: Seq<Seq<usize>>,
    first: int,
    second: int,
    k: int,
)
    requires
        0 <= k <= a.len(),
        k <= b.len(),
        forall|i: int| 0 <= i < k ==> #[trigger] a[i] == b[i],
    ensures
        carried_classes(a, first, second, k) == carried_classes(b, first, second, k),
    decreases k,
{
    if k > 0 {
        assert(a[k - 1] == b[k - 1]);
        lemma_carried_agree(a, b, first, second, k - 1);
    }
}

/// Class lists that agree on their first `k` classes and have only empty
/// classes after those give the same list when two of the first `k` classes
/// are merged.
pub proof fn lemma_merged_padding(
    a: Seq<Seq<usize>>,
    b: Seq<Seq<usize>>,
    first: int,
    second: int,
    k: int,
)
    requires
        0 <= first < k,
        0 <= second < k,
        k <= a.len(),
        k <= b.len(),
        forall|i: int| 0 <= i < k ==> #[trigger] a[i] == b[i],
        forall|i: int| k <= i < a.len() ==> (#[trigger] a[i]).len() == 0,
        forall|i: int| k <= i < b.len() ==> (#[trigger] b[i]).len() == 0,
    ensures
        merged_classes(a, first, second) == merged_classes(b, first, second),
{
    lemma_carried_ignores_empty(a, first, second, k, a.len() as int);
    lemma_carried_ignores_empty(b, first, second, k, b.len() as int);
    lemma_carried_agree(a, b, first, second, k);
    assert(a[first] == b[first]);
    assert(a[second] == b[second]);
}

/// Merging two classes of a partition gives a partition.
pub proof fn lemma_merged_partition(
    classes: Seq<Seq<usize>>,
    n: nat,
    first: int,
    second: int,
    k: int,
)
    requires
        is_partition(classes, n),
        0 <= first < k,
        0 <= second < k,
        first != second,
        k <= classes.len(),
        forall|i: int| k <= i < classes.len() ==> (#[trigger] classes[i]).len() == 0,
    ensures
        is_partition(merged_classes(classes, first, second), n),
        merged_classes(classes, first, second).len() <= k - 1,
{
    let len = classes.len() as int;
    let carried = carried_classes(classes, first, second, len);
    let origin = carried_indices(classes, first, second, len);
    let merged = merged_classes(classes, first, second);
    let joined = classes[first] + classes[second];
    lemma_carried_classes(classes, first, second, len);
    lemma_carried_indices(classes, first, second, len);
    lemma_carried_count(classes, first, second, len, k);
    assert(merged[0] == joined);
    assert forall|i: int| 1 <= i < merged.len() implies #[trigger] merged[i]
        == classes[origin[i - 1]] by {
        assert(merged[i] == carried[i - 1]);
    }
    lemma_joined_membership(classes[first], classes[second]);
    assert forall|i: int, l: int| 0 <= i < merged.len() && 0 <= l < merged[i].len() implies (
    #[trigger] merged[i][l]) < n by {
        let u = merged[i][l];
        if i == 0 {
            if l < classes[first].len() {
                assert(classes[first][l] < n);
            } else {
                assert(classes[second][l - classes[first].len()] < n);
            }
        } else {
            assert(classes[origin[i - 1]][l] < n);
        }
    }
    assert forall|i: int| 0 <= i < merged.len() implies (#[trigger] merged[i]).no_duplicates() by {
        if i > 0 {
            assert(classes[origin[i - 1]].no_duplicates());
        }
    }
    assert forall|i: int, j: int, u: usize|
        0 <= i < merged.len() && 0 <= j < merged.len() && i != j
            && #[trigger] merged[i].contains(u) implies !#[trigger] merged[j].contains(u) by {
        if i > 0 && j > 0 {
            let oi = origin[i - 1];
            let oj = origin[j - 1];
            if i < j {
                assert(origin[i - 1] < origin[j - 1]);
            } else {
                assert(origin[j - 1] < origin[i - 1]);
            }
            assert(classes[oi].contains(u));
            assert(!classes[oj].contains(u));
        } else if i == 0 {
            let o = origin[j - 1];
            if classes[first].contains(u) {
                assert(!classes[o].contains(u));
            } else {
                assert(classes[second].contains(u));
                assert(!classes[o].contains(u));
            }
        } else {
            let o = origin[i - 1];
            assert(classes[o].contains(u));
            assert(!classes[first].contains(u));
            assert(!classes[second].contains(u));
        }
    }
    assert forall|u: usize| u < n implies color_in(merged, u) > 0 by {
        lemma_color_in(classes, u);
        lemma_color_in(merged, u);
        let o = color_in(classes, u) - 1;
        assert(classes[o].contains(u));
        if o == first || o == second {
            assert(merged[0].contains(u));
        } else {
            let p = choose|p: int| 0 <= p < classes[o].len() && classes[o][p] == u;
            assert(classes[o].len() > 0);
            assert(origin.contains(o));
            let r = choose|r: int| 0 <= r < origin.len() && origin[r] == o;
            assert(merged[r + 1] == classes[origin[r]]);
            assert(merged[r + 1].contains(u));
        }
    }
}

/// Two lists without repetitions that share no entry give, one after the
/// other, a list without repetitions that holds what either holds.
pub proof fn lemma_joined_membership(a: Seq<usize>, b: Seq<usize>)
    requires
        a.no_duplicates(),
        b.no_duplicates(),
        forall|u: usize| a.contains(u) ==> !b.contains(u),
    ensures
        (a + b).no_duplicates(),
        forall|u: usize| (a + b).contains(u) <==> a.contains(u) || b.contains(u),
{
    let joined = a + b;
    assert forall|u: usize| joined.contains(u) <==> a.contains(u) || b.contains(u) by {
        if joined.contains(u) {
            let p = choose|p: int| 0 <= p < joined.len() && joined[p] == u;
            if p < a.len() {
                assert(a[p] == u);
            } else {
                assert(b[p - a.len()] == u);
            }
        }
        if a.contains(u) {
            let p = choose|p: int| 0 <= p < a.len() && a[p] == u;
            assert(joined[p] == u);
        }
        if b.contains(u) {
            let p = choose|p: int| 0 <= p < b.len() && b[p] == u;
            assert(joined[p + a.len()] == u);
        }
    }
    assert forall|p: int, q: int|
        0 <= p < joined.len() && 0 <= q < joined.len() && p != q implies joined[p]
        != joined[q] by {
        if p < a.len() && q < a.len() {
        } else if p >= a.len() && q >= a.len() {
            assert(b[p - a.len()] != b[q - a.len()]);
        } else if p < a.len() {
            assert(a.contains(a[p]));
            assert(b.contains(b[q - a.len()]));
        } else {
            assert(a.contains(a[q]));
            assert(b.contains(b[p - a.len()]));
        }
    }
}

} // verus!
