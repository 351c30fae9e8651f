//! The order that sorts a list of spans of time, from the permutation crate.

use crate::entries::Duration;
use crate::sorting::{is_rearrangement, rearranged};
use vstd::prelude::*;

verus! {

/// `a` is not larger than `b`: pairs are compared by their first parts, and by
/// their second parts where the first are equal.
pub open spec fn pair_le(a: (u64, u32), b: (u64, u32)) -> bool {
    a.0 < b.0 || (a.0 == b.0 && a.1 <= b.1)
}

/// `p` is the order that sorts `keys`: it names every place once, the keys
/// taken in that order do not fall, and equal keys keep the order of their
/// places.
pub open spec fn sorts(p: Seq<int>, keys: Seq<(u64, u32)>) -> bool {
    &&& is_rearrangement(p, keys.len())
    &&& forall|i: int, j: int|
        0 <= i < j < p.len() ==> pair_le(keys[p[i]], keys[p[j]]) && (keys[p[i]] == keys[p[j]]
            ==> p[i] < p[j])
}

/// `out` holds the elements of `places` in the order that sorts `keys`.
pub open spec fn applies_sort(out: Seq<usize>, keys: Seq<(u64, u32)>, places: Seq<usize>) -> bool {
    exists|p: Seq<int>| #[trigger] sorts(p, keys) && out == rearranged(places, p)
}

/// Calls `permutation::sort` on `keys` and `Permutation::apply_slice` on
/// `places`; the latter panics where the two differ in length.
///
/// Believed of them: `sort` gives the permutation that sorts the keys and
/// keeps equal keys in their order, and `apply_slice` gives the elements of
/// `places` in the order of that permutation.
#[verifier::external_body]
pub(crate) fn apply_sort(keys: &Vec<(u64, u32)>, places: &Vec<usize>) -> (r: Vec<usize>)
    requires
        keys@.len() == places@.len(),
    ensures
        applies_sort(r@, keys@, places@),
{
    permutation::sort(&keys[..]).apply_slice(&places[..])
}

/// The places of `keys` in the order that sorts the keys, smallest first;
/// equal keys keep the order of their places.
pub fn sorted_places(keys: &Vec<Duration>) -> (r: Vec<usize>)
    ensures
        r@.len() == keys@.len(),
        sorts(
            Seq::new(r@.len(), |k: int| r@[k] as int),
            Seq::new(keys@.len(), |k: int| (keys@[k].secs, keys@[k].nanos)),
        ),
{
    let mut pairs: Vec<(u64, u32)> = Vec::new();
    let mut places: Vec<usize> = Vec::new();
    let mut i: usize = 0;
    while i < keys.len()
        invariant
            i <= keys.len(),
            pairs@.len() == i,
            places@.len() == i,
            forall|k: int| 0 <= k < i ==> #[trigger] pairs@[k] == (keys@[k].secs, keys@[k].nanos),
            forall|k: int| 0 <= k < i ==> #[trigger] places@[k] == k,
        decreases keys.len() - i,
    {
        pairs.push((keys[i].secs, keys[i].nanos));
        places.push(i);
        i = i + 1;
    }
    let r = apply_sort(&pairs, &places);
    proof {
        let p = choose|p: Seq<int>| #[trigger] sorts(p, pairs@) && r@ == rearranged(places@, p);
        assert(Seq::new(r@.len(), |k: int| r@[k] as int) =~= p);
        assert(pairs@ =~= Seq::new(keys@.len(), |k: int| (keys@[k].secs, keys@[k].nanos)));
    }
    r
}

} // verus!
