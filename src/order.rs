use vstd::prelude::*;

verus! {

/// Index `a` comes before index `b`: a larger key first, equal keys in
/// their input order.
pub open spec fn ranked_before(keys: Seq<u64>, a: int, b: int) -> bool {
    keys[a] > keys[b] || (keys[a] == keys[b] && a < b)
}

/// `o` lists every index of `keys` once, by key descending, and keeps the
/// input order of equal keys: the order of a stable sort.
pub open spec fn is_desc_order(keys: Seq<u64>, o: Seq<usize>) -> bool {
    &&& o.len() == keys.len()
    &&& forall|k: int| 0 <= k < o.len() ==> #[trigger] o[k] < keys.len()
    &&& forall|j: usize| j < keys.len() ==> #[trigger] o.contains(j)
    &&& forall|k: int, l: int| 0 <= k < l < o.len() ==> ranked_before(keys, #[trigger] o[k] as int, #[trigger] o[l] as int)
}

/// The positions of `keys` in the order of a stable sort by key, largest first.
pub fn size_order(keys: &Vec<u64>) -> (o: Vec<usize>)
    ensures
        is_desc_order(keys@, o@),
{
    let mut order: Vec<usize> = Vec::new();
    let mut i: usize = 0;
    while i < keys.len()
        invariant
            i <= keys.len(),
            order@.len() == i,
            forall|k: int| 0 <= k < order@.len() ==> #[trigger] order@[k] < i,
            forall|j: usize| j < i ==> #[trigger] order@.contains(j),
            forall|k: int, l: int|
                0 <= k < l < order@.len() ==> ranked_before(keys@, #[trigger] order@[k] as int, #[trigger] order@[l] as int),
        decreases keys.len() - i,
    {
        let key = keys[i];
        let mut p: usize = 0;
        while p < order.len() && keys[order[p]] >= key
            invariant
                p <= order@.len(),
                order@.len() == i,
                i < keys.len(),
                key == keys@[i as int],
                forall|k: int| 0 <= k < order@.len() ==> #[trigger] order@[k] < i,
                forall|q: int| 0 <= q < p ==> keys@[#[trigger] order@[q] as int] >= key,
            decreases order@.len() - p,
        {
            p = p + 1;
        }
        proof {
            if p < order@.len() {
                assert forall|q: int| p <= q < order@.len() implies keys@[#[trigger] order@[q] as int] < key by {
                    if q > p {
                        assert(ranked_before(keys@, order@[p as int] as int, order@[q] as int));
                    }
                }
            }
        }
        let ghost prev = order@;
        order.insert(p, i);
        proof {
            assert(order@ == prev.insert(p as int, i));
            assert forall|j: usize| j < i + 1 implies #[trigger] order@.contains(j) by {
                if j == i {
                    assert(order@[p as int] == j);
                } else {
                    assert(prev.contains(j));
                    let k0 = choose|k: int| 0 <= k < prev.len() && #[trigger] prev[k] == j;
                    if k0 < p {
                        assert(order@[k0] == j);
                    } else {
                        assert(order@[k0 + 1] == j);
                    }
                }
            }
            assert forall|k: int, l: int| 0 <= k < l < order@.len() implies ranked_before(keys@, #[trigger] order@[k] as int, #[trigger] order@[l] as int) by {
                if k < p && l < p {
                    assert(ranked_before(keys@, prev[k] as int, prev[l] as int));
                } else if k < p && l == p {
                    assert(keys@[prev[k] as int] >= key);
                } else if k < p {
                    assert(ranked_before(keys@, prev[k] as int, prev[l - 1] as int));
                } else if k == p {
                    assert(keys@[prev[l - 1] as int] < key);
                } else {
                    assert(ranked_before(keys@, prev[k - 1] as int, prev[l - 1] as int));
                }
            }
        }
        i = i + 1;
    }
    order
}

} // verus!
