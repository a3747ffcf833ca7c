//! Stable sorting by integer keys.

use vstd::prelude::*;

verus! {

/// Whether entry `a` belongs before entry `b`: its key is smaller, or the keys agree and it came
/// first.
pub open spec fn key_before(keys: Seq<u64>, a: int, b: int) -> bool {
    keys[a] < keys[b] || keys[a] == keys[b] && a < b
}

/// Every pair of entries of `order` stands in the order of its keys, ties in their first order.
pub open spec fn ordered_by(keys: Seq<u64>, order: Seq<usize>) -> bool {
    forall|i: int, j: int|
        0 <= i < j < order.len() ==> key_before(
            keys,
            #[trigger] order[i] as int,
            #[trigger] order[j] as int,
        )
}

/// `order` names exactly the positions from `low` up to `high`.
pub open spec fn names_range(order: Seq<usize>, low: int, high: int) -> bool {
    &&& order.len() == high - low
    &&& forall|i: int| 0 <= i < order.len() ==> low <= #[trigger] order[i] < high
    &&& forall|k: int| low <= k < high ==> #[trigger] order.contains(k as usize)
}

/// The positions of `keys` in the order of a stable sort.
pub open spec fn stable_order(keys: Seq<u64>, order: Seq<usize>) -> bool {
    ordered_by(keys, order) && names_range(order, 0, keys.len() as int)
}

/// Merges two runs of neighbouring positions.
fn merge(
    keys: &Vec<u64>,
    a: &Vec<usize>,
    b: &Vec<usize>,
    low: usize,
    mid: usize,
    high: usize,
) -> (m: Vec<usize>)
    requires
        low <= mid <= high <= keys@.len(),
        ordered_by(keys@, a@),
        ordered_by(keys@, b@),
        names_range(a@, low as int, mid as int),
        names_range(b@, mid as int, high as int),
    ensures
        ordered_by(keys@, m@),
        names_range(m@, low as int, high as int),
{
    let mut m: Vec<usize> = Vec::new();
    let mut i: usize = 0;
    let mut j: usize = 0;
    while i < a.len() || j < b.len()
        invariant
            low <= mid <= high <= keys@.len(),
            ordered_by(keys@, a@),
            ordered_by(keys@, b@),
            names_range(a@, low as int, mid as int),
            names_range(b@, mid as int, high as int),
            i <= a@.len(),
            j <= b@.len(),
            m@.len() == i + j,
            ordered_by(keys@, m@),
            forall|k: int| 0 <= k < m@.len() ==> low <= #[trigger] m@[k] < high,
            forall|k: int, l: int|
                0 <= k < m@.len() && i <= l < a@.len() ==> key_before(
                    keys@,
                    #[trigger] m@[k] as int,
                    #[trigger] a@[l] as int,
                ),
            forall|k: int, l: int|
                0 <= k < m@.len() && j <= l < b@.len() ==> key_before(
                    keys@,
                    #[trigger] m@[k] as int,
                    #[trigger] b@[l] as int,
                ),
            forall|k: int| 0 <= k < i ==> m@.contains(#[trigger] a@[k]),
            forall|k: int| 0 <= k < j ==> m@.contains(#[trigger] b@[k]),
        decreases a@.len() - i + b@.len() - j,
    {
        let ghost before = m@;
        let from_a: bool = if i == a.len() {
            false
        } else if j == b.len() {
            true
        } else {
            keys[a[i]] <= keys[b[j]]
        };
        if from_a {
            let x: usize = a[i];
            assert forall|l: int| j <= l < b@.len() implies key_before(
                keys@,
                x as int,
                #[trigger] b@[l] as int,
            ) by {
                assert(b@[j as int] as int >= mid);
                assert(key_before(keys@, b@[j as int] as int, b@[l] as int) || l == j);
            }
            m.push(x);
            i = i + 1;
        } else {
            let x: usize = b[j];
            assert forall|l: int| i <= l < a@.len() implies key_before(
                keys@,
                x as int,
                #[trigger] a@[l] as int,
            ) by {
                assert(key_before(keys@, a@[i as int] as int, a@[l] as int) || l == i);
            }
            m.push(x);
            j = j + 1;
        }
        assert(forall|k: int| 0 <= k < before.len() ==> m@[k] == before[k]);
        assert forall|v: usize| before.contains(v) implies m@.contains(v) by {
            let k = choose|k: int| 0 <= k < before.len() && before[k] == v;
            assert(m@[k] == v);
        }
        assert(m@[m@.len() - 1] == m@.last());
    }
    assert forall|k: int| low <= k < high implies #[trigger] m@.contains(k as usize) by {
        if k < mid {
            assert(a@.contains(k as usize));
            let l = choose|l: int| 0 <= l < a@.len() && a@[l] == k as usize;
            assert(m@.contains(a@[l]));
        } else {
            assert(b@.contains(k as usize));
            let l = choose|l: int| 0 <= l < b@.len() && b@[l] == k as usize;
            assert(m@.contains(b@[l]));
        }
    }
    m
}

/// The positions from `low` up to `high`, in the order of a stable sort by their keys.
fn sort_range(keys: &Vec<u64>, low: usize, high: usize) -> (order: Vec<usize>)
    requires
        low <= high <= keys@.len(),
    ensures
        ordered_by(keys@, order@),
        names_range(order@, low as int, high as int),
    decreases high - low,
{
    if high - low <= 1 {
        let mut order: Vec<usize> = Vec::new();
        if low < high {
            order.push(low);
            assert(order@[0] == low);
        }
        return order;
    }
    let mid: usize = low + (high - low) / 2;
    let a: Vec<usize> = sort_range(keys, low, mid);
    let b: Vec<usize> = sort_range(keys, mid, high);
    merge(keys, &a, &b, low, mid, high)
}

/// The positions of `keys` in the order of a stable sort.
pub fn sort_order(keys: &Vec<u64>) -> (order: Vec<usize>)
    ensures
        stable_order(keys@, order@),
{
    sort_range(keys, 0, keys.len())
}

/// There is a stable order of any keys.
pub proof fn lemma_stable_order_exists(keys: Seq<u64>) -> (order: Seq<usize>)
    requires
        keys.len() <= usize::MAX,
    ensures
        stable_order(keys, order),
{
    lemma_prefix_order(keys, keys.len() as int)
}

proof fn lemma_first_above(keys: Seq<u64>, order: Seq<usize>, key: u64, from: int) -> (at: int)
    requires
        0 <= from <= order.len(),
        forall|k: int| 0 <= k < from ==> keys[#[trigger] order[k] as int] <= key,
    ensures
        0 <= at <= order.len(),
        forall|k: int| 0 <= k < at ==> keys[#[trigger] order[k] as int] <= key,
        at < order.len() ==> keys[order[at] as int] > key,
    decreases order.len() - from,
{
    if from < order.len() && keys[order[from] as int] <= key {
        lemma_first_above(keys, order, key, from + 1)
    } else {
        from
    }
}

proof fn lemma_prefix_order(keys: Seq<u64>, n: int) -> (order: Seq<usize>)
    requires
        0 <= n <= keys.len() <= usize::MAX,
    ensures
        ordered_by(keys, order),
        names_range(order, 0, n),
    decreases n,
{
    if n <= 0 {
        Seq::empty()
    } else {
        let before = lemma_prefix_order(keys, n - 1);
        let key = keys[n - 1];
        let at = lemma_first_above(keys, before, key, 0);
        let order = before.insert(at, (n - 1) as usize);
        assert forall|i: int, j: int| 0 <= i < j < order.len() implies key_before(
            keys,
            #[trigger] order[i] as int,
            #[trigger] order[j] as int,
        ) by {
            let ib = if i < at { i } else { i - 1 };
            let jb = if j < at { j } else { j - 1 };
            if i != at && j != at {
                assert(key_before(keys, before[ib] as int, before[jb] as int));
            } else if i == at {
                assert(keys[before[at] as int] > key);
                if jb > at {
                    assert(key_before(keys, before[at] as int, before[jb] as int));
                }
            } else {
                assert(keys[before[i] as int] <= key);
            }
        }
        assert forall|k: int| 0 <= k < n implies #[trigger] order.contains(k as usize) by {
            if k == n - 1 {
                assert(order[at] == k as usize);
            } else {
                assert(before.contains(k as usize));
                let i = before.index_of(k as usize);
                assert(order[if i < at { i } else { i + 1 }] == k as usize);
            }
        }
        assert forall|i: int| 0 <= i < order.len() implies 0 <= #[trigger] order[i] < n by {
            if i != at {
                assert(before[if i < at { i } else { i - 1 }] < n - 1);
            }
        }
        order
    }
}

/// A stable sort has one result.
pub proof fn lemma_stable_order_unique(keys: Seq<u64>, a: Seq<usize>, b: Seq<usize>)
    requires
        stable_order(keys, a),
        stable_order(keys, b),
    ensures
        a == b,
{
    assert forall|i: int| 0 <= i < a.len() implies a[i] == b[i] by {
        lemma_same_prefix(keys, a, b, i);
    }
    assert(a =~= b);
}

proof fn lemma_same_prefix(keys: Seq<u64>, a: Seq<usize>, b: Seq<usize>, i: int)
    requires
        stable_order(keys, a),
        stable_order(keys, b),
        0 <= i < a.len(),
    ensures
        a[i] == b[i],
    decreases i,
{
    assert forall|k: int| 0 <= k < i implies a[k] == b[k] by {
        lemma_same_prefix(keys, a, b, k);
    }
    if a[i] != b[i] {
        assert(a.contains(b[i] as int as usize));
        assert(b.contains(a[i] as int as usize));
        let ka = choose|k: int| 0 <= k < a.len() && a[k] == b[i];
        let kb = choose|k: int| 0 <= k < b.len() && b[k] == a[i];
        assert(ka > i) by {
            if ka < i {
                assert(b[ka] == b[i]);
                assert(key_before(keys, b[ka] as int, b[i] as int));
            }
        }
        assert(kb > i) by {
            if kb < i {
                assert(a[kb] == a[i]);
                assert(key_before(keys, a[kb] as int, a[i] as int));
            }
        }
        assert(key_before(keys, a[i] as int, a[ka] as int));
        assert(key_before(keys, b[i] as int, b[kb] as int));
        assert(false);
    }
}

} // verus!
