//! Snapping a point to the nearest of a row of candidates, each known by the
//! key that orders it: the smaller the key, the nearer the candidate.

use vstd::prelude::*;

verus! {

/// The least index at which the keys hold a key below `near`; the number of
/// keys if there is none.
pub open spec fn first_below(keys: Seq<u64>, near: u64) -> int
    decreases keys.len(),
{
    if keys.len() == 0 {
        0
    } else if keys[0] < near {
        0
    } else {
        1 + first_below(keys.subrange(1, keys.len() as int), near)
    }
}

/// `i` is the first index at which the least of the keys stands.
pub open spec fn is_first_least(keys: Seq<u64>, i: int) -> bool {
    &&& 0 <= i < keys.len()
    &&& forall|j: int| 0 <= j < keys.len() ==> keys[i] <= #[trigger] keys[j]
    &&& forall|j: int| 0 <= j < i ==> keys[i] < #[trigger] keys[j]
}

/// `first_below` is the least index of a key below `near`.
pub proof fn lemma_first_below(keys: Seq<u64>, near: u64)
    ensures
        0 <= first_below(keys, near) <= keys.len(),
        first_below(keys, near) < keys.len() ==> keys[first_below(keys, near)] < near,
        forall|j: int| 0 <= j < first_below(keys, near) ==> #[trigger] keys[j] >= near,
    decreases keys.len(),
{
    if keys.len() > 0 && keys[0] >= near {
        let rest = keys.subrange(1, keys.len() as int);
        lemma_first_below(rest, near);
        let f = first_below(rest, near);
        assert forall|j: int| 0 <= j < 1 + f implies #[trigger] keys[j] >= near by {
            if j > 0 {
                assert(rest[j - 1] == keys[j]);
            }
        }
        if f < rest.len() {
            assert(rest[f] == keys[f + 1]);
        }
    }
}

/// The candidate to snap to: the first one whose key is below `near`, if
/// there is one, and else the first of those with the least key. Without
/// candidates there is none.
pub fn nearest(keys: &Vec<u64>, near: u64) -> (r: Option<usize>)
    ensures
        r is None <==> keys@.len() == 0,
        r matches Some(i) ==> (if first_below(keys@, near) < keys@.len() {
            i == first_below(keys@, near)
        } else {
            is_first_least(keys@, i as int)
        }),
{
    proof {
        lemma_first_below(keys@, near);
    }
    if keys.len() == 0 {
        return None;
    }
    let mut closest: usize = 0;
    if keys[0] < near {
        return Some(0);
    }
    let mut idx: usize = 1;
    while idx < keys.len()
        invariant
            1 <= idx <= keys@.len(),
            closest < idx,
            forall|j: int| 0 <= j < idx ==> #[trigger] keys@[j] >= near,
            forall|j: int| 0 <= j < idx ==> keys@[closest as int] <= #[trigger] keys@[j],
            forall|j: int| 0 <= j < closest ==> keys@[closest as int] < #[trigger] keys@[j],
            0 <= first_below(keys@, near) <= keys@.len(),
            first_below(keys@, near) < keys@.len() ==> keys@[first_below(keys@, near)] < near,
            forall|j: int| 0 <= j < first_below(keys@, near) ==> #[trigger] keys@[j] >= near,
        decreases keys@.len() - idx,
    {
        if keys[idx] < keys[closest] {
            closest = idx;
            if keys[idx] < near {
                return Some(idx);
            }
        }
        idx += 1;
    }
    Some(closest)
}

} // verus!
