//! How many positions have a property, and which ones.

use vstd::prelude::*;
use vstd::set_lib::set_int_range;

verus! {

/// Those of the first `k` positions that have a property.
pub open spec fn positions(k: int, wanted: spec_fn(int) -> bool) -> Set<int> {
    set_int_range(0, k).filter(wanted)
}

/// One more position that has the property is one more; one that has not is none.
pub proof fn lemma_one_more(k: int, wanted: spec_fn(int) -> bool)
    requires
        0 <= k,
    ensures
        positions(k, wanted).finite(),
        positions(k + 1, wanted).finite(),
        positions(k + 1, wanted).len() == positions(k, wanted).len() + if wanted(k) {
            1nat
        } else {
            0nat
        },
{
    vstd::set_lib::lemma_int_range(0, k);
    vstd::set_lib::lemma_int_range(0, k + 1);
    let before = positions(k, wanted);
    let after = positions(k + 1, wanted);
    if wanted(k) {
        assert(after =~= before.insert(k));
        assert(!before.contains(k));
    } else {
        assert(after =~= before);
    }
}

/// None of no positions has a property.
pub proof fn lemma_none(wanted: spec_fn(int) -> bool)
    ensures
        positions(0, wanted).finite(),
        positions(0, wanted).len() == 0,
{
    vstd::set_lib::lemma_int_range(0, 0);
    assert(positions(0, wanted) =~= Set::empty());
}

/// `from` names positions, each once, in their order.
pub open spec fn rising(from: Seq<int>) -> bool {
    forall|i: int, j: int| 0 <= i < j < from.len() ==> #[trigger] from[i] < #[trigger] from[j]
}

/// `from` are those of the first `k` positions that have a property: all of them, each once, in
/// their order.
pub open spec fn selects(from: Seq<int>, k: int, wanted: spec_fn(int) -> bool) -> bool {
    &&& rising(from)
    &&& forall|j: int| 0 <= j < from.len() ==> 0 <= #[trigger] from[j] < k && wanted(from[j])
    &&& forall|i: int| 0 <= i < k && wanted(i) ==> #[trigger] from.contains(i)
}

/// One more position that has the property is selected behind those before it.
pub proof fn lemma_select_more(from: Seq<int>, k: int, wanted: spec_fn(int) -> bool)
    requires
        selects(from, k, wanted),
        0 <= k,
    ensures
        wanted(k) ==> selects(from.push(k), k + 1, wanted),
        !wanted(k) ==> selects(from, k + 1, wanted),
{
    if wanted(k) {
        let all = from.push(k);
        assert forall|i: int, j: int| 0 <= i < j < all.len() implies #[trigger] all[i]
            < #[trigger] all[j] by {
            assert(all[i] == from[i]);
            if j < from.len() {
                assert(all[j] == from[j]);
            }
        }
        assert forall|j: int| 0 <= j < all.len() implies 0 <= #[trigger] all[j] < k + 1 && wanted(
            all[j],
        ) by {
            if j < from.len() {
                assert(all[j] == from[j]);
            }
        }
        assert forall|i: int| 0 <= i < k + 1 && wanted(i) implies #[trigger] all.contains(i) by {
            if i < k {
                assert(from.contains(i));
                let j = from.index_of(i);
                assert(all[j] == i);
            } else {
                assert(all[from.len() as int] == i);
            }
        }
    }
}

} // verus!
