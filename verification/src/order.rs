//! Deterministic orderings of index sets by integer keys.
use vstd::prelude::*;

verus! {

/// `a` comes before `b` when ordering indices by `keys` (ascending, or
/// descending when `descending`), ties broken by the smaller index — the
/// order a stable sort by key produces.
pub open spec fn key_before(keys: Seq<u64>, descending: bool, a: int, b: int) -> bool {
    if keys[a] == keys[b] {
        a < b
    } else if descending {
        keys[a] > keys[b]
    } else {
        keys[a] < keys[b]
    }
}

/// `order` lists every index `0..m` exactly once, in `key_before` order.
pub open spec fn sorted_permutation(keys: Seq<u64>, descending: bool, order: Seq<usize>) -> bool {
    &&& order.len() == keys.len()
    &&& forall|j: int| 0 <= j < order.len() ==> #[trigger] order[j] < keys.len()
    &&& forall|x: int| 0 <= x < keys.len() ==> #[trigger] order.contains(x as usize)
    &&& forall|a: int, b: int|
        0 <= a < b < order.len() ==> key_before(keys, descending, #[trigger] order[a] as int, #[trigger] order[b] as int)
}

/// There is only one key order of a set of indices.
pub proof fn lemma_sorted_permutation_unique(keys: Seq<u64>, descending: bool, o1: Seq<usize>, o2: Seq<usize>)
    requires
        sorted_permutation(keys, descending, o1),
        sorted_permutation(keys, descending, o2),
    ensures
        o1 == o2,
{
    assert forall|i: int| 0 <= i < o1.len() implies o1[i] == o2[i] by {
        lemma_sorted_permutation_prefix(keys, descending, o1, o2, i);
    }
    assert(o1 =~= o2);
}

proof fn lemma_sorted_permutation_prefix(keys: Seq<u64>, descending: bool, o1: Seq<usize>, o2: Seq<usize>, i: int)
    requires
        sorted_permutation(keys, descending, o1),
        sorted_permutation(keys, descending, o2),
        0 <= i < o1.len(),
    ensures
        o1[i] == o2[i],
    decreases i,
{
    if i > 0 {
        lemma_sorted_permutation_prefix(keys, descending, o1, o2, i - 1);
    }
    assert forall|j: int| 0 <= j < i implies o1[j] == o2[j] by {
        lemma_sorted_permutation_prefix(keys, descending, o1, o2, j);
    }
    let a = o1[i];
    let b = o2[i];
    if a != b {
        assert(o1.contains(b)) by {
            assert(o1.contains(b as int as usize));
        }
        let p = choose|p: int| 0 <= p < o1.len() && o1[p] == b;
        assert(o2.contains(a)) by {
            assert(o2.contains(a as int as usize));
        }
        let q = choose|q: int| 0 <= q < o2.len() && o2[q] == a;
        if p < i {
            assert(o2[p] == b);
            assert(key_before(keys, descending, o2[p] as int, o2[i] as int));
        }
        if q < i {
            assert(o1[q] == a);
            assert(key_before(keys, descending, o1[q] as int, o1[i] as int));
        }
        assert(p > i && q > i);
        assert(key_before(keys, descending, o1[i] as int, o1[p] as int));
        assert(key_before(keys, descending, o2[i] as int, o2[q] as int));
    }
}

/// Whether index `a` precedes index `b` in key order, for `a < b`.
fn comes_before(keys: &Vec<u64>, descending: bool, a: usize, b: usize) -> (r: bool)
    requires
        a < b < keys@.len(),
    ensures
        r == key_before(keys@, descending, a as int, b as int),
{
    if descending {
        keys[a] >= keys[b]
    } else {
        keys[a] <= keys[b]
    }
}

/// The indices `0..keys.len()` in stable key order (see [`key_before`]).
pub fn sort_indices_by_key(keys: &Vec<u64>, descending: bool) -> (order: Vec<usize>)
    ensures
        sorted_permutation(keys@, descending, order@),
{
    let m = keys.len();
    let mut order: Vec<usize> = Vec::new();
    let mut j: usize = 0;
    while j < m
        invariant
            m == keys@.len(),
            j <= m,
            order@.len() == j,
            forall|i: int| 0 <= i < order@.len() ==> #[trigger] order@[i] < j,
            forall|x: int| 0 <= x < j ==> #[trigger] order@.contains(x as usize),
            forall|a: int, b: int|
                0 <= a < b < order@.len() ==> key_before(keys@, descending, #[trigger] order@[a] as int, #[trigger] order@[b] as int),
        decreases m - j,
    {
        // Insert `j` after every element that precedes it.
        let mut p: usize = 0;
        while p < order.len() && comes_before(keys, descending, order[p], j)
            invariant
                m == keys@.len(),
                j < m,
                p <= order@.len(),
                forall|i: int| 0 <= i < order@.len() ==> #[trigger] order@[i] < j,
                forall|i: int| 0 <= i < p ==> key_before(keys@, descending, #[trigger] order@[i] as int, j as int),
            decreases order@.len() - p,
        {
            p = p + 1;
        }
        let ghost old_order = order@;
        order.insert(p, j);
        proof {
            assert(order@ == old_order.insert(p as int, j));
            assert forall|i: int| 0 <= i < order@.len() implies #[trigger] order@[i] < j + 1 by {
                if i < p {
                    assert(order@[i] == old_order[i]);
                } else if i > p {
                    assert(order@[i] == old_order[i - 1]);
                }
            }
            assert forall|x: int| 0 <= x < j + 1 implies #[trigger] order@.contains(x as usize) by {
                if x == j {
                    assert(order@[p as int] == j);
                } else {
                    assert(old_order.contains(x as usize));
                    let i = choose|i: int| 0 <= i < old_order.len() && old_order[i] == x as usize;
                    if i < p {
                        assert(order@[i] == x as usize);
                    } else {
                        assert(order@[i + 1] == x as usize);
                    }
                }
            }
            assert forall|a: int, b: int|
                0 <= a < b < order@.len() implies key_before(keys@, descending, #[trigger] order@[a] as int, #[trigger] order@[b] as int) by {
                if b < p {
                    assert(order@[a] == old_order[a]);
                    assert(order@[b] == old_order[b]);
                } else if b == p {
                    assert(order@[a] == old_order[a]);
                } else if a == p {
                    assert(order@[b] == old_order[b - 1]);
                    // old_order[p] does not precede j, so j precedes it; and
                    // everything after it follows it.
                    if b - 1 > p {
                        assert(key_before(keys@, descending, old_order[p as int] as int, old_order[b - 1] as int));
                    }
                } else if a < p {
                    assert(order@[a] == old_order[a]);
                    assert(order@[b] == old_order[b - 1]);
                } else {
                    assert(order@[a] == old_order[a - 1]);
                    assert(order@[b] == old_order[b - 1]);
                }
            }
        }
        j = j + 1;
    }
    order
}

} // verus!
