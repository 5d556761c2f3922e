//! Connected components of a family of sets.
//!
//! Two sets of the family are adjacent when they share an element. Being
//! connected is the reflexive and transitive closure of being adjacent.

use crate::signal_set::set_to_vec;
use std::collections::BTreeSet;
use vstd::prelude::*;

verus! {

/// The sets at positions `i` and `j` share an element.
pub open spec fn adjacent(sets: Seq<Set<usize>>, i: int, j: int) -> bool {
    &&& 0 <= i < sets.len()
    &&& 0 <= j < sets.len()
    &&& exists|s: usize| sets[i].contains(s) && sets[j].contains(s)
}

/// A walk through the family: each position is adjacent to the next.
pub open spec fn is_path(sets: Seq<Set<usize>>, path: Seq<int>) -> bool {
    &&& path.len() > 0
    &&& forall|k: int| 0 <= k < path.len() ==> 0 <= #[trigger] path[k] < sets.len()
    &&& forall|k: int| 0 <= k < path.len() - 1 ==> adjacent(sets, #[trigger] path[k], path[k + 1])
}

/// A walk leads from the set at position `i` to the one at position `j`.
pub open spec fn connected(sets: Seq<Set<usize>>, i: int, j: int) -> bool {
    exists|path: Seq<int>| is_path(sets, path) && path[0] == i && #[trigger] path.last() == j
}

/// Every position is connected to itself.
pub proof fn lemma_connected_reflexive(sets: Seq<Set<usize>>, i: int)
    requires
        0 <= i < sets.len(),
    ensures
        connected(sets, i, i),
{
    let path = seq![i];
    assert(is_path(sets, path));
    assert(path[0] == i && path.last() == i);
}

/// Adjacent positions are connected.
pub proof fn lemma_adjacent_connected(sets: Seq<Set<usize>>, i: int, j: int)
    requires
        adjacent(sets, i, j),
    ensures
        connected(sets, i, j),
{
    let path = seq![i, j];
    assert(is_path(sets, path));
    assert(path[0] == i && path.last() == j);
}

/// Being connected is symmetric.
pub proof fn lemma_connected_symmetric(sets: Seq<Set<usize>>, i: int, j: int)
    requires
        connected(sets, i, j),
    ensures
        connected(sets, j, i),
{
    let path = choose|path: Seq<int>|
        is_path(sets, path) && path[0] == i && #[trigger] path.last() == j;
    let back = Seq::new(path.len(), |k: int| path[path.len() - 1 - k]);
    assert forall|k: int| 0 <= k < back.len() - 1 implies adjacent(
        sets,
        #[trigger] back[k],
        back[k + 1],
    ) by {
        let m = path.len() - 2 - k;
        assert(adjacent(sets, path[m], path[m + 1]));
        let s = choose|s: usize| sets[path[m]].contains(s) && sets[path[m + 1]].contains(s);
        assert(sets[back[k]].contains(s) && sets[back[k + 1]].contains(s));
    }
    assert(is_path(sets, back));
    assert(back[0] == j && back.last() == i);
}

/// Being connected is transitive.
pub proof fn lemma_connected_transitive(sets: Seq<Set<usize>>, i: int, j: int, k: int)
    requires
        connected(sets, i, j),
        connected(sets, j, k),
    ensures
        connected(sets, i, k),
{
    let first = choose|path: Seq<int>|
        is_path(sets, path) && path[0] == i && #[trigger] path.last() == j;
    let second = choose|path: Seq<int>|
        is_path(sets, path) && path[0] == j && #[trigger] path.last() == k;
    let path = first + second.skip(1);
    assert forall|m: int| 0 <= m < path.len() - 1 implies adjacent(
        sets,
        #[trigger] path[m],
        path[m + 1],
    ) by {
        if m < first.len() - 1 {
            assert(adjacent(sets, first[m], first[m + 1]));
        } else {
            let n = m - first.len() + 1;
            assert(adjacent(sets, second[n], second[n + 1]));
            if m == first.len() - 1 {
                assert(path[m] == first.last());
            } else {
                assert(path[m] == second[n]);
            }
            assert(path[m + 1] == second[n + 1]);
        }
    }
    assert forall|m: int| 0 <= m < path.len() implies 0 <= #[trigger] path[m] < sets.len() by {
        if m < first.len() {
            assert(path[m] == first[m]);
        } else {
            assert(path[m] == second[m - first.len() + 1]);
        }
    }
    assert(is_path(sets, path));
    assert(path[0] == i);
    if second.len() == 1 {
        assert(path.last() == first.last());
    } else {
        assert(path.last() == second.last());
    }
}

/// A labelling that gives adjacent positions the same label gives
/// connected positions the same label.
pub proof fn lemma_labels_constant_on_paths(sets: Seq<Set<usize>>, labels: Seq<usize>, path: Seq<int>)
    requires
        labels.len() == sets.len(),
        is_path(sets, path),
        forall|a: int, b: int| #[trigger] adjacent(sets, a, b) ==> labels[a] == labels[b],
    ensures
        labels[path[0]] == labels[path.last()],
    decreases path.len(),
{
    if path.len() > 1 {
        let shorter = path.drop_last();
        assert forall|k: int| 0 <= k < shorter.len() - 1 implies adjacent(
            sets,
            #[trigger] shorter[k],
            shorter[k + 1],
        ) by {
            assert(adjacent(sets, path[k], path[k + 1]));
        }
        assert(is_path(sets, shorter));
        lemma_labels_constant_on_paths(sets, labels, shorter);
        assert(adjacent(sets, path[path.len() - 2], path[path.len() - 2 + 1]));
    }
}

/// The labels name the connected components: each position is labelled
/// with the least position that it is connected to.
pub open spec fn labels_components(sets: Seq<Set<usize>>, labels: Seq<usize>) -> bool {
    &&& labels.len() == sets.len()
    &&& forall|i: int| 0 <= i < sets.len() ==> (#[trigger] labels[i]) <= i && connected(sets, i, labels[i] as int)
    &&& forall|i: int, j: int| #[trigger] connected(sets, i, j) ==> labels[i] == labels[j]
}

/// With labels that name the components, two positions have the same label
/// exactly when they are connected.
pub proof fn lemma_same_label_connected(sets: Seq<Set<usize>>, labels: Seq<usize>, i: int, j: int)
    requires
        labels_components(sets, labels),
        0 <= i < sets.len(),
        0 <= j < sets.len(),
    ensures
        (labels[i] == labels[j]) == connected(sets, i, j),
{
    if labels[i] == labels[j] {
        lemma_connected_symmetric(sets, j, labels[j] as int);
        lemma_connected_transitive(sets, i, labels[i] as int, j);
    }
}

/// The sum of a list of numbers.
pub open spec fn total(labels: Seq<usize>) -> nat
    decreases labels.len(),
{
    if labels.len() == 0 {
        0
    } else {
        total(labels.drop_last()) + labels.last() as nat
    }
}

/// Lowering one number of a list lowers the sum by as much.
pub proof fn lemma_total_update(labels: Seq<usize>, i: int, value: usize)
    requires
        0 <= i < labels.len(),
    ensures
        total(labels.update(i, value)) + labels[i] == total(labels) + value,
    decreases labels.len(),
{
    let updated = labels.update(i, value);
    if i == labels.len() - 1 {
        assert(updated.drop_last() =~= labels.drop_last());
    } else {
        lemma_total_update(labels.drop_last(), i, value);
        assert(updated.drop_last() =~= labels.drop_last().update(i, value));
    }
}

/// Whether two sets share an element.
pub fn sets_intersect(a: &BTreeSet<usize>, b: &BTreeSet<usize>) -> (r: bool)
    ensures
        r == exists|s: usize| a@.contains(s) && b@.contains(s),
{
    let v = set_to_vec(a);
    let mut i: usize = 0;
    while i < v.len()
        invariant
            i <= v@.len(),
            v@.to_set() == a@,
            forall|k: int| 0 <= k < i ==> !b@.contains(v@[k]),
        decreases v@.len() - i,
    {
        if b.contains(&v[i]) {
            assert(v@.contains(v@[i as int]));
            assert(a@.contains(v@[i as int]));
            return true;
        }
        i = i + 1;
    }
    assert forall|s: usize| !(a@.contains(s) && b@.contains(s)) by {
        if a@.contains(s) {
            assert(v@.to_set().contains(s));
            assert(v@.contains(s));
        }
    }
    false
}

/// The views of a list of sets.
pub open spec fn set_views(sets: Seq<BTreeSet<usize>>) -> Seq<Set<usize>> {
    sets.map_values(|s: BTreeSet<usize>| s@)
}

/// Labels each set of the family with the least position that it is
/// connected to.
pub fn label_components(sets: &Vec<BTreeSet<usize>>) -> (labels: Vec<usize>)
    ensures
        labels_components(set_views(sets@), labels@),
{
    let ghost family = set_views(sets@);
    let n = sets.len();
    let mut labels: Vec<usize> = Vec::new();
    let mut k: usize = 0;
    while k < n
        invariant
            k <= n,
            n == sets@.len(),
            family == set_views(sets@),
            labels@.len() == k,
            forall|i: int| 0 <= i < k ==> (#[trigger] labels@[i]) == i && connected(family, i, i),
        decreases n - k,
    {
        proof {
            lemma_connected_reflexive(family, k as int);
        }
        labels.push(k);
        k = k + 1;
    }
    let mut changed = true;
    while changed
        invariant
            n == sets@.len(),
            family == set_views(sets@),
            labels@.len() == n,
            forall|i: int|
                0 <= i < n ==> (#[trigger] labels@[i]) <= i && connected(
                    family,
                    i,
                    labels@[i] as int,
                ),
            !changed ==> forall|a: int, b: int|
                #[trigger] adjacent(family, a, b) ==> labels@[a] == labels@[b],
        decreases total(labels@), if changed { 1nat } else { 0nat },
    {
        let ghost at_start = labels@;
        changed = false;
        let mut i: usize = 0;
        while i < n
            invariant
                i <= n,
                n == sets@.len(),
                family == set_views(sets@),
                labels@.len() == n,
                forall|m: int|
                    0 <= m < n ==> (#[trigger] labels@[m]) <= m && connected(
                        family,
                        m,
                        labels@[m] as int,
                    ),
                total(labels@) <= total(at_start),
                changed ==> total(labels@) < total(at_start),
                !changed ==> labels@ == at_start,
                !changed ==> forall|a: int, b: int|
                    0 <= a < i && #[trigger] adjacent(family, a, b) ==> labels@[a] == labels@[b],
            decreases n - i,
        {
            let mut j: usize = 0;
            while j < n
                invariant
                    i < n,
                    j <= n,
                    n == sets@.len(),
                    family == set_views(sets@),
                    labels@.len() == n,
                    forall|m: int|
                        0 <= m < n ==> (#[trigger] labels@[m]) <= m && connected(
                            family,
                            m,
                            labels@[m] as int,
                        ),
                    total(labels@) <= total(at_start),
                    changed ==> total(labels@) < total(at_start),
                    !changed ==> labels@ == at_start,
                    !changed ==> forall|a: int, b: int|
                        0 <= a < i && #[trigger] adjacent(family, a, b) ==> labels@[a]
                            == labels@[b],
                    !changed ==> forall|b: int|
                        0 <= b < j && #[trigger] adjacent(family, i as int, b) ==> labels@[i as int]
                            == labels@[b],
                decreases n - j,
            {
                let label_i = labels[i];
                let label_j = labels[j];
                if label_i != label_j && sets_intersect(&sets[i], &sets[j]) {
                    proof {
                        let s = choose|s: usize| sets@[i as int]@.contains(s) && sets@[j as int]@.contains(s);
                        assert(family[i as int].contains(s) && family[j as int].contains(s));
                        assert(adjacent(family, i as int, j as int));
                        assert(adjacent(family, j as int, i as int));
                        lemma_adjacent_connected(family, i as int, j as int);
                        lemma_adjacent_connected(family, j as int, i as int);
                    }
                    let ghost before = labels@;
                    if label_j < label_i {
                        proof {
                            lemma_connected_transitive(
                                family,
                                i as int,
                                j as int,
                                label_j as int,
                            );
                            lemma_total_update(before, i as int, label_j);
                        }
                        labels.set(i, label_j);
                    } else {
                        proof {
                            lemma_connected_transitive(
                                family,
                                j as int,
                                i as int,
                                label_i as int,
                            );
                            lemma_total_update(before, j as int, label_i);
                        }
                        labels.set(j, label_i);
                    }
                    changed = true;
                } else {
                    proof {
                        if !changed && adjacent(family, i as int, j as int) {
                            let s = choose|s: usize|
                                family[i as int].contains(s) && family[j as int].contains(s);
                            assert(sets@[i as int]@.contains(s) && sets@[j as int]@.contains(s));
                        }
                    }
                }
                j = j + 1;
            }
            i = i + 1;
        }
    }
    proof {
        assert forall|i: int, j: int| #[trigger] connected(family, i, j) implies labels@[i]
            == labels@[j] by {
            let path = choose|path: Seq<int>|
                is_path(family, path) && path[0] == i && #[trigger] path.last() == j;
            lemma_labels_constant_on_paths(family, labels@, path);
        }
    }
    labels
}

} // verus!
