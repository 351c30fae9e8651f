//! Putting things in the order of their keys.

use crate::calendar::{lemma_civil_order_is_rank_order, CivilTime, TimePoint};
use crate::entries::Duration;
use vstd::prelude::*;

verus! {

/// A key that things are put in order by.
pub trait Ranked {
    /// The place of this key among all keys: a smaller rank comes first.
    spec fn rank(&self) -> nat;

    /// Whether this key does not come after `other`.
    fn rank_le(&self, other: &Self) -> (b: bool)
        ensures
            b == (self.rank() <= other.rank()),
    ;
}

impl Ranked for CivilTime {
    open spec fn rank(&self) -> nat {
        CivilTime::rank(*self)
    }

    fn rank_le(&self, other: &Self) -> (b: bool) {
        proof {
            lemma_civil_order_is_rank_order(*self, *other);
        }
        self.le(other)
    }
}

impl Ranked for Duration {
    open spec fn rank(&self) -> nat {
        self.secs as nat * 0x1_0000_0000 + self.nanos as nat
    }

    fn rank_le(&self, other: &Self) -> (b: bool) {
        self.secs < other.secs || (self.secs == other.secs && self.nanos <= other.nanos)
    }
}

impl Ranked for TimePoint {
    open spec fn rank(&self) -> nat {
        self.secs as nat * 0x1_0000_0000 + self.nanos as nat
    }

    fn rank_le(&self, other: &Self) -> (b: bool) {
        self.secs < other.secs || (self.secs == other.secs && self.nanos <= other.nanos)
    }
}

impl Ranked for i64 {
    open spec fn rank(&self) -> nat {
        (*self + 0x8000_0000_0000_0000) as nat
    }

    fn rank_le(&self, other: &Self) -> (b: bool) {
        *self <= *other
    }
}

/// A thing and the key it is put in order by.
pub struct Keyed<K, T> {
    pub key: K,
    pub item: T,
}

/// `a` may stand in front of `b`: its key is not larger, or not smaller where
/// the order is descending.
pub open spec fn in_order<K: Ranked>(a: K, b: K, descending: bool) -> bool {
    if descending {
        a.rank() >= b.rank()
    } else {
        a.rank() <= b.rank()
    }
}

/// Every element of `s` may stand in front of every later one.
pub open spec fn sorted_by_rank<K: Ranked, T>(s: Seq<Keyed<K, T>>, descending: bool) -> bool {
    forall|i: int, j: int| 0 <= i < j < s.len() ==> in_order(s[i].key, s[j].key, descending)
}

/// `p` names each of the places `0` up to `n` once.
pub open spec fn is_rearrangement(p: Seq<int>, n: nat) -> bool {
    &&& p.len() == n
    &&& forall|i: int| 0 <= i < p.len() ==> 0 <= #[trigger] p[i] < n
    &&& forall|i: int, j: int| 0 <= i < j < p.len() ==> p[i] != p[j]
}

/// `p` is the order that sorts `keys`: it names every place once, the keys
/// taken in that order do not fall (or do not rise, where `descending`), and
/// equal keys keep the order of their places. There is one such order.
pub open spec fn is_sorting_order<K: Ranked>(p: Seq<int>, keys: Seq<K>, descending: bool) -> bool {
    &&& is_rearrangement(p, keys.len())
    &&& forall|i: int, j: int|
        0 <= i < j < p.len() ==> in_order(keys[p[i]], keys[p[j]], descending) && (keys[p[i]].rank()
            == keys[p[j]].rank() ==> p[i] < p[j])
}

/// The keys of `items`, in their order.
pub open spec fn keys_of<K, T>(items: Seq<Keyed<K, T>>) -> Seq<K> {
    Seq::new(items.len(), |k: int| items[k].key)
}

/// `items` taken in the order of the places `p`.
pub open spec fn rearranged<A>(items: Seq<A>, p: Seq<int>) -> Seq<A> {
    Seq::new(p.len(), |i: int| items[p[i]])
}

/// Puts `item` into the sorted `sorted`, behind everything that may stand in
/// front of it, and says where it put it.
pub fn insert_keyed<K: Ranked, T>(sorted: &mut Vec<Keyed<K, T>>, item: Keyed<K, T>, descending: bool)
    -> (place: usize)
    requires
        sorted_by_rank(old(sorted)@, descending),
    ensures
        sorted_by_rank(final(sorted)@, descending),
        place <= old(sorted)@.len(),
        final(sorted)@ == old(sorted)@.insert(place as int, item),
        forall|k: int|
            0 <= k < place ==> in_order(#[trigger] old(sorted)@[k].key, item.key, descending),
        forall|k: int|
            place <= k < old(sorted)@.len() ==> !in_order(
                #[trigger] old(sorted)@[k].key,
                item.key,
                descending,
            ),
{
    let mut p: usize = sorted.len();
    let mut found = false;
    while p > 0 && !found
        invariant
            p <= sorted.len(),
            *sorted == *old(sorted),
            forall|k: int|
                p <= k < sorted@.len() ==> !in_order(#[trigger] sorted@[k].key, item.key, descending),
            found ==> p > 0 && in_order(sorted@[p - 1].key, item.key, descending),
        decreases p + if found { 0int } else { 1int },
    {
        let stays = if descending {
            item.key.rank_le(&sorted[p - 1].key)
        } else {
            sorted[p - 1].key.rank_le(&item.key)
        };
        if stays {
            found = true;
        } else {
            p = p - 1;
        }
    }
    proof {
        let before = sorted@;
        let after = before.insert(p as int, item);
        assert forall|k: int| 0 <= k < p implies in_order(
            #[trigger] before[k].key,
            item.key,
            descending,
        ) by {
            if k < p - 1 {
                assert(in_order(before[k].key, before[p - 1].key, descending));
            }
        }
        assert forall|i: int, j: int| 0 <= i < j < after.len() implies in_order(
            after[i].key,
            after[j].key,
            descending,
        ) by {
            if j == p {
                assert(after[i] == before[i]);
            } else if i == p {
                assert(after[j] == before[j - 1]);
            } else {
                let bi = if i < p { i } else { i - 1 };
                let bj = if j < p { j } else { j - 1 };
                assert(after[i] == before[bi] && after[j] == before[bj]);
            }
        }
    }
    sorted.insert(p, item);
    p
}

/// The things of `items` in the order of their keys, smallest first, or
/// largest first where `descending`. Things with one key keep the order they
/// came in.
pub fn sort_keyed<K: Ranked, T>(items: Vec<Keyed<K, T>>, descending: bool) -> (r: Vec<Keyed<K, T>>)
    ensures
        sorted_by_rank(r@, descending),
        r@.len() == items@.len(),
        exists|p: Seq<int>| #[trigger]
            is_sorting_order(p, keys_of(items@), descending) && r@ == rearranged(items@, p),
{
    let mut rest = items;
    let mut out: Vec<Keyed<K, T>> = Vec::new();
    let ghost keys = keys_of(items@);
    let ghost mut places: Seq<int> = Seq::empty();
    let ghost mut taken: int = 0;
    assert(out@ =~= rearranged(items@, places));
    while rest.len() > 0
        invariant
            sorted_by_rank(out@, descending),
            0 <= taken <= items@.len(),
            keys == keys_of(items@),
            rest@ == items@.subrange(taken, items@.len() as int),
            is_rearrangement(places, taken as nat),
            out@ == rearranged(items@, places),
            forall|i: int, j: int|
                0 <= i < j < places.len() ==> (keys[places[i]].rank() == keys[places[j]].rank()
                    ==> places[i] < places[j]),
        decreases rest.len(),
    {
        let ghost out_before = out@;
        let item = rest.remove(0);
        let place = insert_keyed(&mut out, item, descending);
        proof {
            let old_places = places;
            places = old_places.insert(place as int, taken);
            assert(item == items@[taken]);
            assert forall|i: int| 0 <= i < places.len() implies 0 <= #[trigger] places[i] < taken
                + 1 by {
                if i < place {
                    assert(places[i] == old_places[i]);
                } else if i > place {
                    assert(places[i] == old_places[i - 1]);
                }
            }
            assert forall|i: int, j: int| 0 <= i < j < places.len() implies places[i]
                != places[j] by {
                let bi = if i < place { i } else { i - 1 };
                let bj = if j < place { j } else { j - 1 };
                if i != place && j != place {
                    assert(places[i] == old_places[bi] && places[j] == old_places[bj]);
                } else if i == place {
                    assert(places[j] == old_places[bj]);
                } else {
                    assert(places[i] == old_places[bi]);
                }
            }
            assert forall|i: int| 0 <= i < places.len() implies out@[i] == items@[places[i]] by {
                if i < place {
                    assert(out@[i] == out_before[i]);
                    assert(places[i] == old_places[i]);
                } else if i > place {
                    assert(out@[i] == out_before[i - 1]);
                    assert(places[i] == old_places[i - 1]);
                }
            }
            assert forall|i: int, j: int|
                0 <= i < j < places.len() && keys[places[i]].rank()
                    == keys[places[j]].rank() implies places[i] < places[j] by {
                let bi = if i < place { i } else { i - 1 };
                let bj = if j < place { j } else { j - 1 };
                if i != place && j != place {
                    assert(places[i] == old_places[bi] && places[j] == old_places[bj]);
                } else if i == place {
                    assert(places[j] == old_places[bj]);
                    assert(out_before[bj] == items@[old_places[bj]]);
                    assert(!in_order(out_before[bj].key, item.key, descending));
                } else {
                    assert(places[i] == old_places[bi]);
                    assert(0 <= old_places[bi] < taken);
                }
            }
            assert(out@ =~= rearranged(items@, places));
            taken = taken + 1;
            assert(rest@ =~= items@.subrange(taken, items@.len() as int));
        }
    }
    proof {
        assert forall|i: int, j: int| 0 <= i < j < places.len() implies in_order(
            keys[places[i]],
            keys[places[j]],
            descending,
        ) by {
            assert(in_order(out@[i].key, out@[j].key, descending));
        }
        assert(is_sorting_order(places, keys_of(items@), descending) && out@ == rearranged(
            items@,
            places,
        ));
    }
    out
}

/// The first `limit` things of `items`, or all of them where there are fewer
/// or no limit is set.
pub fn take_limit<A>(items: Vec<A>, limit: Option<usize>) -> (r: Vec<A>)
    ensures
        r@ == match limit {
            Some(k) => if k < items@.len() {
                items@.subrange(0, k as int)
            } else {
                items@
            },
            None => items@,
        },
{
    let mut items = items;
    match limit {
        Some(k) => {
            if k < items.len() {
                items.truncate(k);
            }
        },
        None => {},
    }
    items
}

/// The things of `items` in the order of `keys`, where `keys[k]` is the key of
/// `items[k]`: smallest key first, or largest first where `descending`. Things
/// with one key keep the order they came in.
pub fn sort_with_keys<K: Ranked + Copy, T>(items: Vec<T>, keys: &Vec<K>, descending: bool) -> (r:
    Vec<T>)
    requires
        keys@.len() == items@.len(),
    ensures
        r@.len() == items@.len(),
        exists|p: Seq<int>| #[trigger]
            is_sorting_order(p, keys@, descending) && r@ == rearranged(items@, p),
{
    let ghost all = items@;
    let mut rest = items;
    let mut keyed: Vec<Keyed<K, T>> = Vec::new();
    let mut i: usize = 0;
    while i < keys.len()
        invariant
            i <= keys.len(),
            keys@.len() == all.len(),
            rest@ == all.subrange(i as int, all.len() as int),
            keyed@.len() == i,
            forall|k: int| 0 <= k < i ==> #[trigger] keyed@[k] == (Keyed { key: keys@[k], item: all[k] }),
        decreases keys.len() - i,
    {
        let item = rest.remove(0);
        keyed.push(Keyed { key: keys[i], item });
        i = i + 1;
        assert(rest@ =~= all.subrange(i as int, all.len() as int));
    }
    let ghost unsorted = keyed@;
    assert(keys_of(unsorted) =~= keys@);
    let sorted = sort_keyed(keyed, descending);
    let ghost whole = sorted@;
    let mut out: Vec<T> = Vec::new();
    let mut left = sorted;
    let ghost mut taken: int = 0;
    while left.len() > 0
        invariant
            0 <= taken <= whole.len(),
            left@ == whole.subrange(taken, whole.len() as int),
            out@ == Seq::new(taken as nat, |k: int| whole[k].item),
        decreases left.len(),
    {
        let Keyed { key: _, item } = left.remove(0);
        out.push(item);
        proof {
            taken = taken + 1;
            assert(left@ =~= whole.subrange(taken, whole.len() as int));
            assert(out@ =~= Seq::new(taken as nat, |k: int| whole[k].item));
        }
    }
    proof {
        let p = choose|p: Seq<int>| #[trigger]
            is_sorting_order(p, keys_of(unsorted), descending) && whole == rearranged(unsorted, p);
        assert(out@ =~= rearranged(all, p));
    }
    out
}

/// An order that names each of `n` places once names every one of them.
pub proof fn lemma_rearrangement_covers(p: Seq<int>, n: nat, place: int)
    requires
        is_rearrangement(p, n),
        0 <= place < n,
    ensures
        exists|at: int| 0 <= at < p.len() && p[at] == place,
{
    if !p.contains(place) {
        let range = Set::new(|v: int| 0 <= v < n && v != place);
        assert(p.no_duplicates());
        p.unique_seq_to_set();
        assert(p.to_set().subset_of(range)) by {
            assert forall|v: int| p.to_set().contains(v) implies range.contains(v) by {
                let k = choose|k: int| 0 <= k < p.len() && p[k] == v;
                assert(0 <= p[k] < n);
            }
        }
        let full = Set::new(|v: int| 0 <= v < n);
        vstd::set_lib::lemma_int_range(0, n as int);
        assert(full =~= vstd::set_lib::set_int_range(0, n as int));
        assert(range =~= full.remove(place));
        vstd::set_lib::lemma_len_subset(p.to_set(), range);
    }
    let at = choose|at: int| 0 <= at < p.len() && p[at] == place;
}

proof fn lemma_sorting_orders_agree_upto<K: Ranked>(
    p: Seq<int>,
    q: Seq<int>,
    keys: Seq<K>,
    descending: bool,
    count: int,
)
    requires
        is_sorting_order(p, keys, descending),
        is_sorting_order(q, keys, descending),
        0 <= count <= keys.len(),
    ensures
        forall|m: int| 0 <= m < count ==> p[m] == q[m],
    decreases count,
{
    if count > 0 {
        lemma_sorting_orders_agree_upto(p, q, keys, descending, count - 1);
        let m = count - 1;
        if p[m] != q[m] {
            let a = p[m];
            let b = q[m];
            lemma_rearrangement_covers(q, keys.len(), a);
            let j = choose|j: int| 0 <= j < q.len() && q[j] == a;
            lemma_rearrangement_covers(p, keys.len(), b);
            let k = choose|k: int| 0 <= k < p.len() && p[k] == b;
            if j < m {
                assert(p[j] == q[j]);
            }
            if k < m {
                assert(q[k] == p[k]);
            }
            assert(m < j && m < k);
            assert(in_order(keys[q[m]], keys[q[j]], descending));
            assert(in_order(keys[p[m]], keys[p[k]], descending));
        }
    }
}

/// The keys have one sorting order and no other.
pub proof fn lemma_sorting_order_is_unique<K: Ranked>(
    p: Seq<int>,
    q: Seq<int>,
    keys: Seq<K>,
    descending: bool,
)
    requires
        is_sorting_order(p, keys, descending),
        is_sorting_order(q, keys, descending),
    ensures
        p == q,
{
    lemma_sorting_orders_agree_upto(p, q, keys, descending, keys.len() as int);
    assert(p =~= q);
}

/// `r` is the answer made of the findings `found`: the findings in the order
/// of their keys, those of one key in the order in which they were found, cut
/// off after `limit` where there are more.
pub open spec fn is_answer<K: Ranked, T>(
    r: Seq<Keyed<K, T>>,
    found: Seq<Keyed<K, T>>,
    descending: bool,
    limit: Option<usize>,
) -> bool {
    &&& r.len() == if limit is Some && limit.unwrap() < found.len() {
        limit.unwrap() as nat
    } else {
        found.len()
    }
    &&& exists|p: Seq<int>| #[trigger]
        is_sorting_order(p, keys_of(found), descending) && r == rearranged(found, p).subrange(
            0,
            r.len() as int,
        )
}

/// Findings have one answer: whoever makes it, and however, it is the same
/// sequence.
pub proof fn lemma_answer_is_unique<K: Ranked, T>(
    a: Seq<Keyed<K, T>>,
    b: Seq<Keyed<K, T>>,
    found: Seq<Keyed<K, T>>,
    descending: bool,
    limit: Option<usize>,
)
    requires
        is_answer(a, found, descending, limit),
        is_answer(b, found, descending, limit),
    ensures
        a == b,
{
    let p = choose|p: Seq<int>| #[trigger]
        is_sorting_order(p, keys_of(found), descending) && a == rearranged(found, p).subrange(
            0,
            a.len() as int,
        );
    let q = choose|q: Seq<int>| #[trigger]
        is_sorting_order(q, keys_of(found), descending) && b == rearranged(found, q).subrange(
            0,
            b.len() as int,
        );
    lemma_sorting_order_is_unique(p, q, keys_of(found), descending);
}

/// An answer with a limit is the beginning of the answer without one: the
/// first `limit` of it, or all of it where there are no more.
pub proof fn lemma_limited_answer_is_a_prefix<K: Ranked, T>(
    limited: Seq<Keyed<K, T>>,
    whole: Seq<Keyed<K, T>>,
    found: Seq<Keyed<K, T>>,
    descending: bool,
    limit: usize,
)
    requires
        is_answer(limited, found, descending, Some(limit)),
        is_answer(whole, found, descending, None),
    ensures
        limited.len() == if limit < whole.len() { limit as nat } else { whole.len() },
        limited == whole.subrange(0, limited.len() as int),
{
    let p = choose|p: Seq<int>| #[trigger]
        is_sorting_order(p, keys_of(found), descending) && limited == rearranged(
            found,
            p,
        ).subrange(0, limited.len() as int);
    let q = choose|q: Seq<int>| #[trigger]
        is_sorting_order(q, keys_of(found), descending) && whole == rearranged(found, q).subrange(
            0,
            whole.len() as int,
        );
    lemma_sorting_order_is_unique(p, q, keys_of(found), descending);
    assert(limited =~= whole.subrange(0, limited.len() as int));
}

/// The answer made of the findings `found`: sorted by their keys, smallest
/// first, or largest first where `descending`, and cut off after `limit`.
pub fn answer_of<K: Ranked, T>(found: Vec<Keyed<K, T>>, descending: bool, limit: Option<usize>)
    -> (r: Vec<Keyed<K, T>>)
    ensures
        is_answer(r@, found@, descending, limit),
        sorted_by_rank(r@, descending),
        limit is Some ==> r@.len() <= limit.unwrap(),
{
    let sorted = sort_keyed(found, descending);
    let ghost whole = sorted@;
    let r = take_limit(sorted, limit);
    proof {
        let p = choose|p: Seq<int>| #[trigger]
            is_sorting_order(p, keys_of(found@), descending) && whole == rearranged(found@, p);
        assert(r@ =~= whole.subrange(0, r@.len() as int));
        assert(is_sorting_order(p, keys_of(found@), descending) && r@ == rearranged(
            found@,
            p,
        ).subrange(0, r@.len() as int));
        assert forall|i: int, j: int| 0 <= i < j < r@.len() implies in_order(
            r@[i].key,
            r@[j].key,
            descending,
        ) by {
            assert(r@[i] == whole[i] && r@[j] == whole[j]);
        }
    }
    r
}

} // verus!
