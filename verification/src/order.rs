//! Ordering by a key, largest first, keeping the given order among
//! equal keys (what a stable sort by descending key gives).

use vstd::prelude::*;

verus! {

/// Position `a` comes before position `b`: a larger key, or an equal key
/// and an earlier position.
pub open spec fn goes_before(keys: Seq<u64>, a: int, b: int) -> bool {
    keys[a] > keys[b] || (keys[a] == keys[b] && a < b)
}

/// `order` lists every position of `keys` once, largest key first, equal
/// keys in their given order.
pub open spec fn is_desc_order(keys: Seq<u64>, order: Seq<usize>) -> bool {
    &&& order.len() == keys.len()
    &&& order.no_duplicates()
    &&& forall|k: int| 0 <= k < order.len() ==> #[trigger] order[k] < keys.len()
    &&& forall|a: int, b: int|
        0 <= a < b < order.len() ==> goes_before(keys, #[trigger] order[a] as int, #[trigger] order[b] as int)
}

/// The positions of `keys`, largest key first; among equal keys, earlier
/// positions first.
pub fn order_desc(keys: &Vec<u64>) -> (order: Vec<usize>)
    ensures
        is_desc_order(keys@, order@),
{
    let ks = keys;
    let mut order: Vec<usize> = Vec::new();
    let mut i: usize = 0;
    while i < ks.len()
        invariant
            i <= ks@.len(),
            order@.len() == i,
            order@.no_duplicates(),
            forall|k: int| 0 <= k < order@.len() ==> #[trigger] order@[k] < i,
            forall|a: int, b: int|
                0 <= a < b < order@.len() ==> goes_before(
                    ks@,
                    #[trigger] order@[a] as int,
                    #[trigger] order@[b] as int,
                ),
        decreases ks@.len() - i,
    {
        let key = ks[i];
        // first position whose key is smaller than `key`
        let mut p: usize = 0;
        while p < order.len() && ks[order[p]] >= key
            invariant
                p <= order@.len(),
                forall|k: int| 0 <= k < order@.len() ==> #[trigger] order@[k] < i,
                i < ks@.len(),
                key == ks@[i as int],
                forall|x: int| 0 <= x < p ==> ks@[#[trigger] order@[x] as int] >= key,
            decreases order@.len() - p,
        {
            p = p + 1;
        }
        let ghost before = order@;
        order.insert(p, i);
        proof {
            let o = order@;
            assert(o =~= before.take(p as int).push(i).add(before.skip(p as int)));
            assert forall|x: int| 0 <= x < o.len() implies #[trigger] o[x] < i + 1 by {
                if x < p {
                    assert(o[x] == before[x]);
                } else if x > p {
                    assert(o[x] == before[x - 1]);
                }
            }
            // the keys of `before` do not rise
            assert forall|a: int, b: int| 0 <= a < b < o.len() implies goes_before(
                ks@,
                #[trigger] o[a] as int,
                #[trigger] o[b] as int,
            ) by {
                if b < p {
                    assert(o[a] == before[a] && o[b] == before[b]);
                } else if a < p && b == p {
                    assert(o[a] == before[a]);
                    assert(ks@[before[a] as int] >= key);
                    assert(before[a] < i);
                } else if a < p && b > p {
                    assert(o[a] == before[a] && o[b] == before[b - 1]);
                } else if a == p {
                    assert(o[b] == before[b - 1]);
                    assert(p < before.len());
                    assert(ks@[before[p as int] as int] < key);
                    if b - 1 > p {
                        assert(goes_before(ks@, before[p as int] as int, before[b - 1] as int));
                    }
                } else {
                    assert(o[a] == before[a - 1] && o[b] == before[b - 1]);
                }
            }
            assert(o.no_duplicates()) by {
                assert forall|a: int, b: int| 0 <= a < o.len() && 0 <= b < o.len() && a != b implies o[a]
                    != o[b] by {
                    if a < b {
                        assert(goes_before(ks@, o[a] as int, o[b] as int));
                    } else {
                        assert(goes_before(ks@, o[b] as int, o[a] as int));
                    }
                }
            }
        }
        i = i + 1;
    }
    order
}

} // verus!
