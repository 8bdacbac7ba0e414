//! Stable ordering of items by an integer key.

use vstd::prelude::*;
use vstd::seq_lib::{to_multiset_contains, to_multiset_len};

verus! {

/// The order of pairs: by the first component, then by the second.
pub open spec fn pair_le(a: (u64, usize), b: (u64, usize)) -> bool {
    a.0 < b.0 || (a.0 == b.0 && a.1 <= b.1)
}

/// Whether the item at index `a` comes before the item at index `b` when
/// the items are sorted by key and items of equal key keep their order.
pub open spec fn key_before(keys: Seq<u64>, a: int, b: int) -> bool {
    keys[a] < keys[b] || (keys[a] == keys[b] && a < b)
}

/// `order` lists the indices of `keys` sorted by key, indices of equal key
/// in increasing order: the order that a stable sort gives.
pub open spec fn is_stable_order(keys: Seq<u64>, order: Seq<usize>) -> bool {
    &&& order.len() == keys.len()
    &&& forall|j: int| 0 <= j < order.len() ==> (#[trigger] order[j]) < keys.len()
    &&& forall|i: int, j: int|
        0 <= i < j < order.len() ==> key_before(keys, (#[trigger] order[i]) as int, (#[trigger] order[j]) as int)
}

/// A stable order lists every index: it is a permutation.
pub proof fn lemma_stable_order_covers(keys: Seq<u64>, order: Seq<usize>, j: int)
    requires
        is_stable_order(keys, order),
        0 <= j < keys.len(),
    ensures
        order.contains(j as usize),
{
    broadcast use vstd::seq_lib::seq_to_set_is_finite;

    let m = keys.len() as int;
    let ints = order.map_values(|v: usize| v as int);
    assert forall|a: int, b: int| 0 <= a < ints.len() && 0 <= b < ints.len() && a != b implies ints[a]
        != ints[b] by {
        if a < b {
            assert(key_before(keys, order[a] as int, order[b] as int));
        } else {
            assert(key_before(keys, order[b] as int, order[a] as int));
        }
    }
    assert(ints.no_duplicates());
    ints.unique_seq_to_set();
    vstd::set_lib::lemma_int_range(0, m);
    let range = vstd::set_lib::set_int_range(0, m);
    assert forall|v: int| ints.to_set().contains(v) implies range.contains(v) by {
        let i = choose|i: int| 0 <= i < ints.len() && ints[i] == v;
        assert(order[i] < keys.len());
    }
    vstd::set_lib::lemma_subset_equality(ints.to_set(), range);
    assert(range.contains(j));
    assert(ints.to_set().contains(j));
    let i = choose|i: int| 0 <= i < ints.len() && ints[i] == j;
    assert(order[i] == j as usize);
}

/// `<[T]>::sort` of the standard library, on pairs of integers: it
/// rearranges the items into ascending order, and tuples are ordered by
/// their first component, then by their second.
#[verifier::external_body]
fn sort_pairs(v: &mut Vec<(u64, usize)>)
    ensures
        final(v)@.to_multiset() == old(v)@.to_multiset(),
        forall|i: int, j: int|
            0 <= i < j < final(v)@.len() ==> pair_le(#[trigger] final(v)@[i], #[trigger] final(v)@[j]),
{
    v.sort();
}

/// The indices of `keys` in the order of a stable sort by key.
pub fn stable_order(keys: &Vec<u64>) -> (r: Vec<usize>)
    ensures
        is_stable_order(keys@, r@),
{
    let n = keys.len();
    let mut pairs: Vec<(u64, usize)> = Vec::new();
    let mut i: usize = 0;
    while i < n
        invariant
            i <= n,
            n == keys@.len(),
            pairs@.len() == i,
            forall|j: int| 0 <= j < i ==> (#[trigger] pairs@[j]) == (keys@[j], j as usize),
        decreases n - i,
    {
        pairs.push((keys[i], i));
        i = i + 1;
    }
    let ghost initial = pairs@;
    sort_pairs(&mut pairs);
    proof {
        to_multiset_len(initial);
        to_multiset_len(pairs@);
        assert(initial.no_duplicates());
        initial.lemma_multiset_has_no_duplicates();
        pairs@.lemma_multiset_has_no_duplicates_conv();
        assert forall|j: int| 0 <= j < pairs@.len() implies (#[trigger] pairs@[j]).1 < n && pairs@[j].0
            == keys@[pairs@[j].1 as int] by {
            let p = pairs@[j];
            assert(pairs@.contains(p));
            to_multiset_contains(pairs@, p);
            to_multiset_contains(initial, p);
            let k = choose|k: int| 0 <= k < initial.len() && initial[k] == p;
            assert(initial[k] == (keys@[k], k as usize));
        }
    }
    let mut order: Vec<usize> = Vec::new();
    let mut j: usize = 0;
    while j < n
        invariant
            j <= n,
            n == pairs@.len(),
            order@.len() == j,
            forall|k: int| 0 <= k < j ==> (#[trigger] order@[k]) == pairs@[k].1,
        decreases n - j,
    {
        order.push(pairs[j].1);
        j = j + 1;
    }
    proof {
        assert forall|a: int, b: int| 0 <= a < b < order@.len() implies key_before(
            keys@,
            (#[trigger] order@[a]) as int,
            (#[trigger] order@[b]) as int,
        ) by {
            assert(pair_le(pairs@[a], pairs@[b]));
            assert(pairs@[a] != pairs@[b]);
        }
    }
    order
}

} // verus!
