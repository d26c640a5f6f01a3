//! The order of segments by their offset: a stable sort of positions.

use vstd::prelude::*;

verus! {

/// Whether position `i` comes before position `j`: by the smaller key, and among equal keys by the
/// smaller position.
pub open spec fn comes_before(keys: Seq<u64>, i: int, j: int) -> bool {
    keys[i] < keys[j] || (keys[i] == keys[j] && i < j)
}

/// Whether `order` lists the positions `lo..hi` by their keys, equal keys in the order in which
/// they stand.
pub open spec fn is_order_of_range(keys: Seq<u64>, order: Seq<usize>, lo: int, hi: int) -> bool {
    &&& order.len() == hi - lo
    &&& forall|k: int| 0 <= k < order.len() ==> lo <= #[trigger] order[k] < hi
    &&& forall|a: int, b: int|
        0 <= a < b < order.len() ==> comes_before(
            keys,
            #[trigger] order[a] as int,
            #[trigger] order[b] as int,
        )
}

/// Whether `order` lists all positions by their keys, equal keys in the order in which they stand.
pub open spec fn is_order_of(keys: Seq<u64>, order: Seq<usize>) -> bool {
    is_order_of_range(keys, order, 0, keys.len() as int)
}

/// Whether a position is listed.
pub open spec fn lists(order: Seq<usize>, i: int) -> bool {
    exists|k: int| 0 <= k < order.len() && order[k] == i
}

/// The positions by their keys, equal keys in the order in which they stand.
pub fn stable_order(keys: &Vec<u64>) -> (order: Vec<usize>)
    ensures
        is_order_of(keys@, order@),
{
    order_range(keys, 0, keys.len())
}

/// The positions `lo..hi` by their keys.
fn order_range(keys: &Vec<u64>, lo: usize, hi: usize) -> (order: Vec<usize>)
    requires
        lo <= hi <= keys@.len(),
    ensures
        is_order_of_range(keys@, order@, lo as int, hi as int),
    decreases hi - lo,
{
    if hi - lo <= 1 {
        let mut order: Vec<usize> = Vec::new();
        if lo < hi {
            order.push(lo);
        }
        return order;
    }
    let mid: usize = lo + (hi - lo) / 2;
    let left: Vec<usize> = order_range(keys, lo, mid);
    let right: Vec<usize> = order_range(keys, mid, hi);
    let mut order: Vec<usize> = Vec::new();
    let mut i: usize = 0;
    let mut j: usize = 0;
    while i < left.len() || j < right.len()
        invariant
            lo <= mid <= hi <= keys@.len(),
            is_order_of_range(keys@, left@, lo as int, mid as int),
            is_order_of_range(keys@, right@, mid as int, hi as int),
            i <= left@.len(),
            j <= right@.len(),
            order@.len() == i + j,
            forall|k: int| 0 <= k < order@.len() ==> lo <= #[trigger] order@[k] < hi,
            forall|a: int, b: int|
                0 <= a < b < order@.len() ==> comes_before(
                    keys@,
                    #[trigger] order@[a] as int,
                    #[trigger] order@[b] as int,
                ),
            forall|k: int, a: int|
                0 <= k < order@.len() && i <= a < left@.len() ==> comes_before(
                    keys@,
                    #[trigger] order@[k] as int,
                    #[trigger] left@[a] as int,
                ),
            forall|k: int, b: int|
                0 <= k < order@.len() && j <= b < right@.len() ==> comes_before(
                    keys@,
                    #[trigger] order@[k] as int,
                    #[trigger] right@[b] as int,
                ),
        decreases (left@.len() - i) + (right@.len() - j),
    {
        let take_left: bool = if i >= left.len() {
            false
        } else if j >= right.len() {
            true
        } else {
            keys[left[i]] <= keys[right[j]]
        };
        if take_left {
            order.push(left[i]);
            i += 1;
        } else {
            order.push(right[j]);
            j += 1;
        }
    }
    order
}

/// An order lists every position, and none twice: nothing is lost and nothing is added.
pub proof fn law_order_is_permutation(keys: Seq<u64>, order: Seq<usize>)
    requires
        is_order_of(keys, order),
    ensures
        order.no_duplicates(),
        forall|i: int| 0 <= i < keys.len() ==> #[trigger] lists(order, i),
{
    let n = keys.len() as int;
    let positions = order.map_values(|x: usize| x as int);
    assert forall|a: int, b: int| 0 <= a < b < positions.len() implies positions[a]
        != positions[b] by {
        assert(comes_before(keys, order[a] as int, order[b] as int));
    }
    assert(positions.no_duplicates());
    assert(order.no_duplicates());
    positions.unique_seq_to_set();
    let range = vstd::set_lib::set_int_range(0, n);
    vstd::set_lib::lemma_int_range(0, n);
    assert forall|x: int| positions.to_set().contains(x) implies range.contains(x) by {
        let k = choose|k: int| 0 <= k < positions.len() && positions[k] == x;
        assert(0 <= order[k] < n);
    }
    vstd::set_lib::lemma_subset_equality(positions.to_set(), range);
    assert forall|i: int| 0 <= i < n implies #[trigger] lists(order, i) by {
        assert(range.contains(i));
        assert(positions.to_set().contains(i));
        let k = choose|k: int| 0 <= k < positions.len() && positions[k] == i;
        assert(order[k] == i);
    }
}

/// There is one order only.
pub proof fn law_order_is_unique(keys: Seq<u64>, a: Seq<usize>, b: Seq<usize>)
    requires
        is_order_of(keys, a),
        is_order_of(keys, b),
    ensures
        a == b,
{
    law_order_is_permutation(keys, a);
    law_order_is_permutation(keys, b);
    lemma_same_prefix(keys, a, b, keys.len() as int);
    assert(a =~= b);
}

proof fn lemma_same_prefix(keys: Seq<u64>, a: Seq<usize>, b: Seq<usize>, k: int)
    requires
        is_order_of(keys, a),
        is_order_of(keys, b),
        a.no_duplicates(),
        b.no_duplicates(),
        forall|i: int| 0 <= i < keys.len() ==> #[trigger] lists(a, i),
        forall|i: int| 0 <= i < keys.len() ==> #[trigger] lists(b, i),
        0 <= k <= keys.len(),
    ensures
        forall|i: int| 0 <= i < k ==> a[i] == b[i],
    decreases k,
{
    if k > 0 {
        lemma_same_prefix(keys, a, b, k - 1);
        let x = a[k - 1] as int;
        let y = b[k - 1] as int;
        assert(lists(a, y) && lists(b, x));
        let p = choose|p: int| 0 <= p < a.len() && a[p] == y;
        let q = choose|q: int| 0 <= q < b.len() && b[q] == x;
        if p < k - 1 {
            assert(a[p] == b[p]);
            assert(b[p] == b[k - 1]);
        }
        if q < k - 1 {
            assert(a[q] == b[q]);
            assert(a[q] == a[k - 1]);
        }
        if x != y {
            assert(comes_before(keys, a[k - 1] as int, a[p] as int));
            assert(comes_before(keys, b[k - 1] as int, b[q] as int));
        }
    }
}

/// Where a key that stands behind all others goes in their order.
proof fn lemma_insert_point(keys: Seq<u64>, order: Seq<usize>, key: u64, from: int) -> (at: int)
    requires
        is_order_of(keys, order),
        0 <= from <= order.len(),
        forall|k: int| from <= k < order.len() ==> keys[(#[trigger] order[k]) as int] > key,
    ensures
        0 <= at <= order.len(),
        forall|k: int| 0 <= k < at ==> keys[(#[trigger] order[k]) as int] <= key,
        forall|k: int| at <= k < order.len() ==> keys[(#[trigger] order[k]) as int] > key,
    decreases from,
{
    if from == 0 {
        0
    } else if keys[order[from - 1] as int] > key {
        lemma_insert_point(keys, order, key, from - 1)
    } else {
        assert forall|k: int| 0 <= k < from implies keys[(#[trigger] order[k]) as int] <= key by {
            if k < from - 1 {
                assert(comes_before(keys, order[k] as int, order[from - 1] as int));
            }
        }
        from
    }
}

/// Every row of keys has an order.
pub proof fn law_order_exists(keys: Seq<u64>) -> (order: Seq<usize>)
    requires
        keys.len() <= usize::MAX,
    ensures
        is_order_of(keys, order),
    decreases keys.len(),
{
    if keys.len() == 0 {
        Seq::empty()
    } else {
        let front = keys.drop_last();
        let last = keys.len() - 1;
        let before = law_order_exists(front);
        let at = lemma_insert_point(front, before, keys[last], before.len() as int);
        let order = before.insert(at, last as usize);
        assert forall|k: int| 0 <= k < order.len() implies 0 <= #[trigger] order[k]
            < keys.len() by {
            if k < at {
                assert(order[k] == before[k]);
            } else if k > at {
                assert(order[k] == before[k - 1]);
            }
        }
        assert forall|a: int, b: int| 0 <= a < b < order.len() implies comes_before(
            keys,
            #[trigger] order[a] as int,
            #[trigger] order[b] as int,
        ) by {
            let x = if a < at {
                a
            } else {
                a - 1
            };
            let y = if b < at {
                b
            } else {
                b - 1
            };
            if a != at {
                assert(order[a] == before[x]);
                assert(front[before[x] as int] == keys[before[x] as int]);
            }
            if b != at {
                assert(order[b] == before[y]);
                assert(front[before[y] as int] == keys[before[y] as int]);
            }
            if a != at && b != at {
                assert(comes_before(front, before[x] as int, before[y] as int));
            }
        }
        order
    }
}

/// An order lists positions by their keys: of two positions it lists the one with the smaller key
/// first, and of two with the same key the smaller position.
pub proof fn law_order_by_keys(keys: Seq<u64>, order: Seq<usize>, a: int, b: int)
    requires
        is_order_of(keys, order),
        0 <= a < b < order.len(),
    ensures
        order.len() == keys.len(),
        order[a] < keys.len(),
        order[b] < keys.len(),
        keys[order[a] as int] < keys[order[b] as int] || (keys[order[a] as int]
            == keys[order[b] as int] && order[a] < order[b]),
{
    assert(comes_before(keys, order[a] as int, order[b] as int));
}

} // verus!
