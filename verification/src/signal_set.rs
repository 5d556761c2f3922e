//! Ordered sets of signal indices.

use std::collections::{BTreeMap, BTreeSet};
use vstd::prelude::*;
use vstd::std_specs::btree::*;
use vstd::std_specs::cmp::OrdSpec;
use vstd::std_specs::iter::IteratorSpec;

verus! {

/// Each element is smaller than every later one.
pub open spec fn strictly_increasing(s: Seq<usize>) -> bool {
    forall|i: int, j: int| 0 <= i < j < s.len() ==> s[i] < s[j]
}

/// The elements of a set, in ascending order.
pub fn set_to_vec(s: &BTreeSet<usize>) -> (v: Vec<usize>)
    ensures
        v@.to_set() == s@,
        strictly_increasing(v@),
{
    let mut v: Vec<usize> = Vec::new();
    for x in it: s.iter()
        invariant
            it.seq() == spec_btree_keys_iter(s).remaining(),
            v@.len() == it.index(),
            forall|k: int| 0 <= k < v@.len() ==> v@[k] == *it.seq()[k],
    {
        v.push(*x);
    }
    proof {
        broadcast use vstd::laws_cmp::group_laws_cmp;

        let r = spec_btree_keys_iter(s).remaining();
        assert(v@ =~= r.unref());
        axiom_increasing_seq_meaning::<&usize>(r);
        assert forall|i: int, j: int| 0 <= i < j < v@.len() implies v@[i] < v@[j] by {
            assert((&r[i]).cmp_spec(&r[j]) is Less);
        }
    }
    v
}

/// The keys of a map, in ascending order.
pub fn map_keys<V>(m: &BTreeMap<usize, V>) -> (v: Vec<usize>)
    ensures
        v@.to_set() == m@.dom(),
        strictly_increasing(v@),
{
    let mut v: Vec<usize> = Vec::new();
    for x in it: m.keys()
        invariant
            it.seq() == spec_keys_iter(m).remaining(),
            v@.len() == it.index(),
            forall|k: int| 0 <= k < v@.len() ==> v@[k] == *it.seq()[k],
    {
        v.push(*x);
    }
    proof {
        broadcast use vstd::laws_cmp::group_laws_cmp;

        let r = spec_keys_iter(m).remaining();
        assert(v@ =~= r.unref());
        axiom_increasing_seq_meaning::<&usize>(r);
        assert forall|i: int, j: int| 0 <= i < j < v@.len() implies v@[i] < v@[j] by {
            assert((&r[i]).cmp_spec(&r[j]) is Less);
        }
    }
    v
}

/// Whether each of the given indices is a key of the map.
pub fn all_keys<V>(indices: &Vec<usize>, map: &BTreeMap<usize, V>) -> (r: bool)
    ensures
        r == forall|i: int| 0 <= i < indices@.len() ==> map@.contains_key(#[trigger] indices@[i]),
{
    let mut i: usize = 0;
    while i < indices.len()
        invariant
            i <= indices@.len(),
            forall|k: int| 0 <= k < i ==> map@.contains_key(#[trigger] indices@[k]),
        decreases indices@.len() - i,
    {
        if !map.contains_key(&indices[i]) {
            return false;
        }
        i = i + 1;
    }
    true
}

/// Whether each element of the set is a key of the map.
pub fn set_within_keys<V>(set: &BTreeSet<usize>, map: &BTreeMap<usize, V>) -> (r: bool)
    ensures
        r == forall|s: usize| set@.contains(s) ==> #[trigger] map@.contains_key(s),
{
    let v = set_to_vec(set);
    let r = all_keys(&v, map);
    proof {
        if r {
            assert forall|s: usize| set@.contains(s) implies #[trigger] map@.contains_key(s) by {
                assert(v@.to_set().contains(s));
                assert(v@.contains(s));
                let i = choose|i: int| 0 <= i < v@.len() && v@[i] == s;
                assert(map@.contains_key(v@[i]));
            }
        } else {
            let i = choose|i: int| 0 <= i < v@.len() && !map@.contains_key(#[trigger] v@[i]);
            assert(v@.contains(v@[i]));
            assert(v@.to_set().contains(v@[i]));
        }
    }
    r
}

/// The number of elements of a set.
pub fn set_len(s: &BTreeSet<usize>) -> (r: usize)
    ensures
        r == s@.len(),
{
    s.len()
}

/// Whether every element of `a` is an element of `b`.
pub fn is_subset(a: &BTreeSet<usize>, b: &BTreeSet<usize>) -> (r: bool)
    ensures
        r == a@.subset_of(b@),
{
    let v = set_to_vec(a);
    let mut i: usize = 0;
    while i < v.len()
        invariant
            i <= v@.len(),
            v@.to_set() == a@,
            forall|k: int| 0 <= k < i ==> b@.contains(v@[k]),
        decreases v@.len() - i,
    {
        if !b.contains(&v[i]) {
            assert(v@.contains(v@[i as int]));
            assert(a@.contains(v@[i as int]));
            return false;
        }
        i = i + 1;
    }
    assert forall|x: usize| a@.contains(x) implies b@.contains(x) by {
        assert(v@.to_set().contains(x));
        assert(v@.contains(x));
    }
    true
}

/// The elements of `a` that are not in `b`, in ascending order.
pub fn difference_to_vec(a: &BTreeSet<usize>, b: &BTreeSet<usize>) -> (r: Vec<usize>)
    ensures
        r@.to_set() == a@.difference(b@),
        strictly_increasing(r@),
{
    let v = set_to_vec(a);
    let mut r: Vec<usize> = Vec::new();
    let mut i: usize = 0;
    while i < v.len()
        invariant
            i <= v@.len(),
            strictly_increasing(v@),
            strictly_increasing(r@),
            forall|k: int| 0 <= k < r@.len() ==> exists|m: int| 0 <= m < i && v@[m] == #[trigger] r@[k],
            forall|m: int| 0 <= m < i && !b@.contains(v@[m]) ==> r@.contains(#[trigger] v@[m]),
            forall|k: int| 0 <= k < r@.len() ==> !b@.contains(#[trigger] r@[k]),
        decreases v@.len() - i,
    {
        if !b.contains(&v[i]) {
            let ghost before = r@;
            r.push(v[i]);
            assert forall|x: int, y: int| 0 <= x < y < r@.len() implies r@[x] < r@[y] by {
                if y == before.len() {
                    let m = choose|m: int| 0 <= m < i && v@[m] == before[x];
                    assert(v@[m] < v@[i as int]);
                }
            }
            assert forall|m: int| 0 <= m < i + 1 && !b@.contains(v@[m]) implies r@.contains(
                #[trigger] v@[m],
            ) by {
                if m < i {
                    assert(before.contains(v@[m]));
                    let k = choose|k: int| 0 <= k < before.len() && before[k] == v@[m];
                    assert(r@[k] == v@[m]);
                } else {
                    assert(r@[before.len() as int] == v@[m]);
                }
            }
        }
        i = i + 1;
    }
    assert forall|x: usize| r@.to_set().contains(x) <==> a@.difference(b@).contains(x) by {
        if r@.to_set().contains(x) {
            assert(r@.contains(x));
            let k = choose|k: int| 0 <= k < r@.len() && r@[k] == x;
            let m = choose|m: int| 0 <= m < i && v@[m] == r@[k];
            assert(v@.contains(x));
            assert(v@.to_set().contains(x));
        }
        if a@.difference(b@).contains(x) {
            assert(v@.to_set().contains(x));
            assert(v@.contains(x));
            let m = choose|m: int| 0 <= m < v@.len() && v@[m] == x;
            assert(r@.contains(v@[m]));
        }
    }
    assert(r@.to_set() =~= a@.difference(b@));
    r
}

/// Adds to `target` every element of `source`.
pub fn insert_all(target: &mut BTreeSet<usize>, source: &BTreeSet<usize>)
    ensures
        final(target)@ == old(target)@.union(source@),
{
    let v = set_to_vec(source);
    let mut i: usize = 0;
    while i < v.len()
        invariant
            i <= v@.len(),
            forall|x: usize|
                target@.contains(x) <==> old(target)@.contains(x) || exists|k: int|
                    0 <= k < i && v@[k] == x,
        decreases v@.len() - i,
    {
        target.insert(v[i]);
        i = i + 1;
    }
    assert forall|x: usize| target@.contains(x) <==> old(target)@.union(source@).contains(x) by {
        if source@.contains(x) {
            assert(v@.to_set().contains(x));
            assert(v@.contains(x));
        }
        if exists|k: int| 0 <= k < v@.len() && v@[k] == x {
            assert(v@.contains(x));
            assert(v@.to_set().contains(x));
        }
    }
    assert(target@ =~= old(target)@.union(source@));
}

/// The set of the elements of `v`.
pub fn vec_to_set(v: &Vec<usize>) -> (r: BTreeSet<usize>)
    ensures
        r@ == v@.to_set(),
{
    let mut r: BTreeSet<usize> = BTreeSet::new();
    let mut i: usize = 0;
    while i < v.len()
        invariant
            i <= v@.len(),
            forall|x: usize| r@.contains(x) <==> exists|k: int| 0 <= k < i && v@[k] == x,
        decreases v@.len() - i,
    {
        r.insert(v[i]);
        i = i + 1;
    }
    assert forall|x: usize| r@.contains(x) <==> v@.to_set().contains(x) by {
        if v@.to_set().contains(x) {
            assert(v@.contains(x));
        }
        if exists|k: int| 0 <= k < v@.len() && v@[k] == x {
            assert(v@.contains(x));
        }
    }
    assert(r@ =~= v@.to_set());
    r
}

/// Two ascending sequences with the same elements are the same sequence.
pub proof fn lemma_increasing_unique(a: Seq<usize>, b: Seq<usize>)
    requires
        strictly_increasing(a),
        strictly_increasing(b),
        a.to_set() == b.to_set(),
    ensures
        a == b,
    decreases a.len(),
{
    if a.len() == 0 {
        if b.len() > 0 {
            assert(b.contains(b[0]));
            assert(b.to_set().contains(b[0]));
            assert(a.contains(b[0]));
        }
        assert(a =~= b);
    } else {
        let top = a.last();
        assert(a.contains(top));
        assert(b.to_set().contains(top));
        assert(b.contains(top));
        let k = choose|k: int| 0 <= k < b.len() && b[k] == top;
        if k < b.len() - 1 {
            assert(b.contains(b.last()));
            assert(a.to_set().contains(b.last()));
            assert(a.contains(b.last()));
            let m = choose|m: int| 0 <= m < a.len() && a[m] == b.last();
            if m < a.len() - 1 {
                assert(a[m] < a[a.len() - 1]);
            }
            assert(b[k] < b[b.len() - 1]);
        }
        assert(b.last() == top);
        let a0 = a.drop_last();
        let b0 = b.drop_last();
        assert forall|x: usize| a0.to_set().contains(x) <==> b0.to_set().contains(x) by {
            if a0.contains(x) {
                let m = choose|m: int| 0 <= m < a0.len() && a0[m] == x;
                assert(a[m] < top);
                assert(a.contains(x));
                assert(b.to_set().contains(x));
                assert(b.contains(x));
                let n = choose|n: int| 0 <= n < b.len() && b[n] == x;
                assert(n < b.len() - 1);
                assert(b0[n] == x);
            }
            if b0.contains(x) {
                let n = choose|n: int| 0 <= n < b0.len() && b0[n] == x;
                assert(b[n] < top);
                assert(b.contains(x));
                assert(a.to_set().contains(x));
                assert(a.contains(x));
                let m = choose|m: int| 0 <= m < a.len() && a[m] == x;
                assert(m < a.len() - 1);
                assert(a0[m] == x);
            }
        }
        assert(a0.to_set() =~= b0.to_set());
        lemma_increasing_unique(a0, b0);
        assert(a =~= a0.push(top));
        assert(b =~= b0.push(top));
    }
}

/// The elements of a finite set in ascending order.
pub open spec fn sorted_keys(s: Set<usize>) -> Seq<usize> {
    choose|v: Seq<usize>| strictly_increasing(v) && v.to_set() == s
}

/// An ascending sequence is the ascending order of its elements.
pub proof fn lemma_sorted_keys(v: Seq<usize>)
    requires
        strictly_increasing(v),
    ensures
        sorted_keys(v.to_set()) == v,
{
    let w = sorted_keys(v.to_set());
    assert(strictly_increasing(w) && w.to_set() == v.to_set());
    lemma_increasing_unique(w, v);
}

} // verus!
