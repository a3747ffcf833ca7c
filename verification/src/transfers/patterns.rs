//! The most frequent of many keys.

use crate::counting::{lemma_none, lemma_one_more, positions};
use crate::sorting::{ordered_by, sort_order, stable_order};
use std::collections::HashMap;
use vstd::prelude::*;

verus! {

/// How many patterns are listed at most.
pub const LISTED_PATTERNS: usize = 20;

/// How often `x` is among the first `k` keys.
pub open spec fn frequency(keys: Seq<u128>, x: u128, k: int) -> nat
    decreases k,
{
    if k <= 0 {
        0
    } else {
        frequency(keys, x, k - 1) + if keys[k - 1] == x {
            1nat
        } else {
            0nat
        }
    }
}

/// A key is as frequent as there are positions that hold it.
pub proof fn lemma_frequency_counts(keys: Seq<u128>, x: u128, k: int)
    requires
        0 <= k <= keys.len(),
    ensures
        frequency(keys, x, k) == positions(k, |i: int| keys[i] == x).len(),
    decreases k,
{
    let found = |i: int| keys[i] == x;
    if k <= 0 {
        lemma_none(found);
    } else {
        lemma_frequency_counts(keys, x, k - 1);
        lemma_one_more(k - 1, found);
    }
}

proof fn lemma_frequency_bound(keys: Seq<u128>, x: u128, k: int)
    requires
        0 <= k,
    ensures
        frequency(keys, x, k) <= k,
    decreases k,
{
    if k > 0 {
        lemma_frequency_bound(keys, x, k - 1);
    }
}

/// Whether `listed` counts different keys, each by a position where it occurs and how often it is
/// among the first `k`.
pub open spec fn counts(keys: Seq<u128>, listed: Seq<(usize, u64)>, k: int) -> bool {
    &&& forall|s: int|
        0 <= s < listed.len() ==> {
            &&& (#[trigger] listed[s]).0 < k
            &&& listed[s].1 == frequency(keys, keys[listed[s].0 as int], k)
        }
    &&& forall|s: int, t: int|
        0 <= s < listed.len() && 0 <= t < listed.len() && s != t ==> keys[(
        #[trigger] listed[s]).0 as int] != keys[(#[trigger] listed[t]).0 as int]
}

/// Whether the key at `i` is listed.
pub open spec fn lists(keys: Seq<u128>, listed: Seq<(usize, u64)>, i: int) -> bool {
    exists|s: int| 0 <= s < listed.len() && keys[(#[trigger] listed[s]).0 as int] == keys[i]
}

/// Whether `listed` are the most frequent keys: the most frequent first, at most twenty, and none
/// that is left out is more frequent than one that is listed.
pub open spec fn most_frequent(keys: Seq<u128>, listed: Seq<(usize, u64)>) -> bool {
    &&& counts(keys, listed, keys.len() as int)
    &&& listed.len() <= LISTED_PATTERNS
    &&& forall|s: int, t: int|
        0 <= s < t < listed.len() ==> (#[trigger] listed[s]).1 >= (#[trigger] listed[t]).1
    &&& forall|i: int|
        0 <= i < keys.len() && !#[trigger] lists(keys, listed, i) ==> listed.len()
            == LISTED_PATTERNS && forall|s: int|
            0 <= s < listed.len() ==> (#[trigger] listed[s]).1 >= frequency(
                keys,
                keys[i],
                keys.len() as int,
            )
}

/// Counts how often each key occurs.
fn count_keys(keys: &Vec<u128>) -> (slots: Vec<(usize, u64)>)
    requires
        keys@.len() <= u64::MAX,
    ensures
        counts(keys@, slots@, keys@.len() as int),
        forall|i: int| 0 <= i < keys@.len() ==> #[trigger] lists(keys@, slots@, i),
{
    broadcast use vstd::std_specs::hash::group_hash_axioms;

    let mut slots: Vec<(usize, u64)> = Vec::new();
    let mut slot_of: HashMap<u128, usize> = HashMap::new();
    let mut k: usize = 0;
    while k < keys.len()
        invariant
            k <= keys@.len() <= u64::MAX,
            counts(keys@, slots@, k as int),
            forall|i: int| 0 <= i < k ==> #[trigger] slot_of@.contains_key(keys@[i]),
            forall|x: u128| #[trigger]
                slot_of@.contains_key(x) ==> {
                    &&& slot_of@[x] < slots@.len()
                    &&& keys@[slots@[slot_of@[x] as int].0 as int] == x
                },
            forall|s: int|
                0 <= s < slots@.len() ==> slot_of@.contains_key(
                    keys@[(#[trigger] slots@[s]).0 as int],
                ) && slot_of@[keys@[slots@[s].0 as int]] == s,
        decreases keys@.len() - k,
    {
        let key: u128 = keys[k];
        let ghost before = slots@;
        let ghost known = slot_of@;
        proof {
            lemma_frequency_bound(keys@, key, k as int);
        }
        let found: Option<usize> = match slot_of.get(&key) {
            Some(slot) => Some(*slot),
            None => None,
        };
        match found {
            Some(slot) => {
                let (first, count): (usize, u64) = slots[slot];
                assert(before[slot as int].1 == frequency(keys@, key, k as int));
                slots[slot] = (first, count + 1);
                assert forall|s: int| 0 <= s < slots@.len() implies {
                    &&& (#[trigger] slots@[s]).0 < k + 1
                    &&& slots@[s].1 == frequency(keys@, keys@[slots@[s].0 as int], k + 1)
                } by {
                    assert(before[s].0 < k);
                    if s != slot {
                        assert(slots@[s] == before[s]);
                        assert(keys@[before[s].0 as int] != keys@[before[slot as int].0 as int]);
                    }
                }
                assert forall|s: int, t: int|
                    0 <= s < slots@.len() && 0 <= t < slots@.len() && s != t implies keys@[(
                #[trigger] slots@[s]).0 as int] != keys@[(#[trigger] slots@[t]).0 as int] by {
                    assert(keys@[before[s].0 as int] != keys@[before[t].0 as int]);
                }
                assert forall|s: int| 0 <= s < slots@.len() implies slot_of@.contains_key(
                    keys@[(#[trigger] slots@[s]).0 as int],
                ) && slot_of@[keys@[slots@[s].0 as int]] == s by {
                    assert(slots@[s].0 == before[s].0);
                }
                assert forall|x: u128| #[trigger] slot_of@.contains_key(x) implies {
                    &&& slot_of@[x] < slots@.len()
                    &&& keys@[slots@[slot_of@[x] as int].0 as int] == x
                } by {
                    assert(slots@[slot_of@[x] as int].0 == before[slot_of@[x] as int].0);
                }
            },
            None => {
                let slot: usize = slots.len();
                slots.push((k, 1));
                slot_of.insert(key, slot);
                assert(frequency(keys@, key, k as int) == 0) by {
                    lemma_absent(keys@, key, k as int);
                }
                assert forall|s: int| 0 <= s < slots@.len() implies {
                    &&& (#[trigger] slots@[s]).0 < k + 1
                    &&& slots@[s].1 == frequency(keys@, keys@[slots@[s].0 as int], k + 1)
                } by {
                    if s < before.len() {
                        assert(before[s].0 < k);
                        assert(known.contains_key(keys@[before[s].0 as int]));
                    }
                }
                assert forall|s: int, t: int|
                    0 <= s < slots@.len() && 0 <= t < slots@.len() && s != t implies keys@[(
                #[trigger] slots@[s]).0 as int] != keys@[(#[trigger] slots@[t]).0 as int] by {
                    if s < before.len() && t < before.len() {
                        assert(keys@[before[s].0 as int] != keys@[before[t].0 as int]);
                    } else if s < before.len() {
                        assert(known.contains_key(keys@[before[s].0 as int]));
                    } else {
                        assert(known.contains_key(keys@[before[t].0 as int]));
                    }
                }
                assert forall|s: int| 0 <= s < slots@.len() implies slot_of@.contains_key(
                    keys@[(#[trigger] slots@[s]).0 as int],
                ) && slot_of@[keys@[slots@[s].0 as int]] == s by {
                    if s < before.len() {
                        assert(known.contains_key(keys@[before[s].0 as int]));
                    }
                }
            },
        }
        k = k + 1;
    }
    assert forall|i: int| 0 <= i < keys@.len() implies #[trigger] lists(keys@, slots@, i) by {
        assert(slot_of@.contains_key(keys@[i]));
        let s = slot_of@[keys@[i]] as int;
        assert(keys@[slots@[s].0 as int] == keys@[i]);
    }
    slots
}

proof fn lemma_absent(keys: Seq<u128>, x: u128, k: int)
    requires
        0 <= k <= keys.len(),
        forall|i: int| 0 <= i < k ==> #[trigger] keys[i] != x,
    ensures
        frequency(keys, x, k) == 0,
    decreases k,
{
    if k > 0 {
        lemma_absent(keys, x, k - 1);
        assert(keys[k - 1] != x);
    }
}

/// Lists the most frequent keys, each by a position where it occurs and how often it does.
pub fn top_keys(keys: &Vec<u128>) -> (listed: Vec<(usize, u64)>)
    requires
        keys@.len() <= u64::MAX,
    ensures
        most_frequent(keys@, listed@),
        forall|s: int| 0 <= s < listed@.len() ==> (#[trigger] listed@[s]).0 < keys@.len(),
{
    let slots: Vec<(usize, u64)> = count_keys(keys);
    let mut ranks: Vec<u64> = Vec::new();
    let mut i: usize = 0;
    while i < slots.len()
        invariant
            i == ranks@.len() <= slots@.len(),
            forall|s: int| 0 <= s < i ==> #[trigger] ranks@[s] == u64::MAX - slots@[s].1,
        decreases slots@.len() - i,
    {
        ranks.push(u64::MAX - slots[i].1);
        i = i + 1;
    }
    let order: Vec<usize> = sort_order(&ranks);
    let mut listed: Vec<(usize, u64)> = Vec::new();
    let mut k: usize = 0;
    while k < order.len() && k < LISTED_PATTERNS
        invariant
            stable_order(ranks@, order@),
            ranks@.len() == slots@.len(),
            k == listed@.len() <= order@.len(),
            k <= LISTED_PATTERNS,
            forall|s: int| 0 <= s < k ==> #[trigger] listed@[s] == slots@[order@[s] as int],
        decreases order@.len() - k,
    {
        assert(order@[k as int] < slots@.len());
        listed.push(slots[order[k]]);
        k = k + 1;
    }
    proof {
        let n = keys@.len() as int;
        assert forall|s: int, t: int|
            0 <= s < order@.len() && 0 <= t < order@.len() && s != t implies order@[s]
            != order@[t] by {
            assert(ordered_by(ranks@, order@));
            if s < t {
                assert(crate::sorting::key_before(ranks@, order@[s] as int, order@[t] as int));
            } else {
                assert(crate::sorting::key_before(ranks@, order@[t] as int, order@[s] as int));
            }
        }
        assert forall|s: int| 0 <= s < listed@.len() implies {
            &&& (#[trigger] listed@[s]).0 < n
            &&& listed@[s].1 == frequency(keys@, keys@[listed@[s].0 as int], n)
        } by {
            assert(listed@[s] == slots@[order@[s] as int]);
        }
        assert forall|s: int, t: int|
            0 <= s < listed@.len() && 0 <= t < listed@.len() && s != t implies keys@[(
        #[trigger] listed@[s]).0 as int] != keys@[(#[trigger] listed@[t]).0 as int] by {
            assert(order@[s] != order@[t]);
            assert(listed@[s] == slots@[order@[s] as int]);
            assert(listed@[t] == slots@[order@[t] as int]);
        }
        assert forall|s: int, t: int| 0 <= s < t < listed@.len() implies (#[trigger] listed@[s]).1
            >= (#[trigger] listed@[t]).1 by {
            assert(crate::sorting::key_before(ranks@, order@[s] as int, order@[t] as int));
            assert(ranks@[order@[s] as int] == u64::MAX - slots@[order@[s] as int].1);
            assert(ranks@[order@[t] as int] == u64::MAX - slots@[order@[t] as int].1);
        }
        assert forall|i: int|
            0 <= i < n && !#[trigger] lists(keys@, listed@, i) implies listed@.len()
            == LISTED_PATTERNS && forall|s: int|
            0 <= s < listed@.len() ==> (#[trigger] listed@[s]).1 >= frequency(
                keys@,
                keys@[i],
                n,
            ) by {
            assert(lists(keys@, slots@, i));
            let p = choose|p: int|
                0 <= p < slots@.len() && keys@[(#[trigger] slots@[p]).0 as int] == keys@[i];
            assert(order@.contains(p as usize));
            let t = order@.index_of(p as usize);
            assert(order@[t] == p);
            if t < listed@.len() {
                assert(listed@[t] == slots@[p]);
                assert(lists(keys@, listed@, i));
            }
            assert forall|s: int| 0 <= s < listed@.len() implies (#[trigger] listed@[s]).1
                >= frequency(keys@, keys@[i], n) by {
                assert(crate::sorting::key_before(ranks@, order@[s] as int, order@[t] as int));
                assert(ranks@[order@[s] as int] == u64::MAX - slots@[order@[s] as int].1);
                assert(ranks@[p] == u64::MAX - slots@[p].1);
                assert(slots@[p].1 == frequency(keys@, keys@[slots@[p].0 as int], n));
            }
        }
    }
    listed
}

} // verus!
