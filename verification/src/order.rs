//! Scores, and the order in which ranked things are listed.
use vstd::prelude::*;

use crate::text;

verus! {

/// A score: a number in the single-precision format of IEEE 754, held by its bits.
#[derive(Debug, Clone, Copy, PartialEq, Eq)]
pub struct Score {
    pub bits: u32,
}

impl Score {
    /// Where the score stands among all scores. Of two numbers the larger one has the larger
    /// level, and equal numbers have the same: so do the two zeros.
    pub open spec fn level(self) -> int {
        if self.bits < 0x8000_0000 {
            self.bits as int
        } else {
            0x8000_0000 - self.bits
        }
    }

    /// The level of the score.
    pub fn get_level(&self) -> (r: i128)
        ensures
            r == self.level(),
    {
        if self.bits < 0x8000_0000 {
            self.bits as i128
        } else {
            0x8000_0000i128 - self.bits as i128
        }
    }

    /// The score zero.
    pub fn zero() -> (r: Score)
        ensures
            r.bits == 0,
            r.level() == 0,
    {
        Score { bits: 0 }
    }
}

/// How many of the first items of `order` have a key that is at least `key`, where the keys
/// fall along `order`.
pub open spec fn place_of(order: Seq<int>, keys: Seq<int>, key: int) -> nat
    decreases order.len(),
{
    if order.len() == 0 {
        0
    } else if keys[order.last()] >= key {
        order.len()
    } else {
        place_of(order.drop_last(), keys, key)
    }
}

/// The positions of items with the given keys, listed by falling key; items with the same key
/// keep their order.
pub open spec fn falling_order(keys: Seq<int>) -> Seq<int>
    decreases keys.len(),
{
    if keys.len() == 0 {
        Seq::empty()
    } else {
        let before = falling_order(keys.drop_last());
        before.insert(place_of(before, keys, keys.last()) as int, keys.len() - 1)
    }
}

/// Whether the item at `a` is listed before the item at `b`.
pub open spec fn goes_before(keys: Seq<int>, a: int, b: int) -> bool {
    keys[a] > keys[b] || (keys[a] == keys[b] && a < b)
}

/// Whether `order` lists each position once.
pub open spec fn lists_all(order: Seq<int>, n: int) -> bool {
    &&& order.len() == n
    &&& forall|i: int| 0 <= i < order.len() ==> 0 <= #[trigger] order[i] < n
    &&& forall|i: int, j: int|
        0 <= i < j < order.len() ==> #[trigger] order[i] != #[trigger] order[j]
    &&& forall|a: int| 0 <= a < n ==> #[trigger] order.contains(a)
}

proof fn lemma_place_of(order: Seq<int>, keys: Seq<int>, key: int)
    requires
        forall|i: int, j: int|
            0 <= i < j < order.len() ==> keys[#[trigger] order[i]] >= keys[#[trigger] order[j]],
    ensures
        place_of(order, keys, key) <= order.len(),
        forall|i: int|
            0 <= i < place_of(order, keys, key) ==> keys[#[trigger] order[i]] >= key,
        forall|i: int|
            place_of(order, keys, key) <= i < order.len() ==> keys[#[trigger] order[i]] < key,
    decreases order.len(),
{
    if order.len() > 0 && keys[order.last()] < key {
        let before = order.drop_last();
        assert forall|i: int, j: int| 0 <= i < j < before.len() implies keys[#[trigger] before[i]]
            >= keys[#[trigger] before[j]] by {
            assert(before[i] == order[i] && before[j] == order[j]);
        }
        lemma_place_of(before, keys, key);
        let n = place_of(before, keys, key);
        assert forall|i: int| 0 <= i < n implies keys[#[trigger] order[i]] >= key by {
            assert(before[i] == order[i]);
        }
        assert forall|i: int| n <= i < order.len() implies keys[#[trigger] order[i]] < key by {
            if i < before.len() {
                assert(before[i] == order[i]);
            }
        }
    }
}

/// Every item is listed once, and each where it belongs: behind those with a larger key and
/// behind those with the same key that came first.
pub proof fn law_falling_order(keys: Seq<int>)
    ensures
        lists_all(falling_order(keys), keys.len() as int),
        forall|i: int, j: int|
            0 <= i < j < keys.len() ==> goes_before(
                keys,
                #[trigger] falling_order(keys)[i],
                #[trigger] falling_order(keys)[j],
            ),
    decreases keys.len(),
{
    if keys.len() > 0 {
        let shorter = keys.drop_last();
        let before = falling_order(shorter);
        law_falling_order(shorter);
        let n = keys.len() - 1;
        assert forall|i: int, j: int| 0 <= i < j < before.len() implies keys[#[trigger] before[i]]
            >= keys[#[trigger] before[j]] by {
            assert(goes_before(shorter, before[i], before[j]));
            assert(0 <= before[i] < n && 0 <= before[j] < n);
        }
        lemma_place_of(before, keys, keys.last());
        let at = place_of(before, keys, keys.last()) as int;
        let order = falling_order(keys);
        assert forall|i: int, j: int| 0 <= i < j < keys.len() implies goes_before(
            keys,
            #[trigger] order[i],
            #[trigger] order[j],
        ) by {
            let x = if i < at {
                i
            } else {
                i - 1
            };
            let y = if j < at {
                j
            } else {
                j - 1
            };
            if i == at {
                assert(order[j] == before[y]);
            } else if j == at {
                assert(order[i] == before[x]);
            } else {
                assert(order[i] == before[x] && order[j] == before[y]);
                assert(goes_before(shorter, before[x], before[y]));
            }
        }
        assert forall|i: int| 0 <= i < order.len() implies 0 <= #[trigger] order[i]
            < keys.len() by {
            if i < at {
                assert(order[i] == before[i]);
            } else if i > at {
                assert(order[i] == before[i - 1]);
            }
        }
        assert forall|i: int, j: int| 0 <= i < j < order.len() implies #[trigger] order[i]
            != #[trigger] order[j] by {
            assert(goes_before(keys, order[i], order[j]));
        }
        assert forall|a: int| 0 <= a < keys.len() implies #[trigger] order.contains(a) by {
            if a == n {
                assert(order[at] == a);
            } else {
                assert(before.contains(a));
                let i = choose|i: int| 0 <= i < before.len() && before[i] == a;
                if i < at {
                    assert(order[i] == a);
                } else {
                    assert(order[i + 1] == a);
                }
            }
        }
    }
}

/// No other listing has every item in its place.
pub proof fn law_falling_order_is_the_only_one(keys: Seq<int>, order: Seq<int>)
    requires
        lists_all(order, keys.len() as int),
        forall|i: int, j: int|
            0 <= i < j < keys.len() ==> goes_before(
                keys,
                #[trigger] order[i],
                #[trigger] order[j],
            ),
    ensures
        order == falling_order(keys),
{
    law_falling_order(keys);
    lemma_same_listing(keys, order, falling_order(keys), keys.len() as int);
    assert(order =~= falling_order(keys));
}

proof fn lemma_same_listing(keys: Seq<int>, a: Seq<int>, b: Seq<int>, n: int)
    requires
        0 <= n <= keys.len(),
        lists_all(a, keys.len() as int),
        lists_all(b, keys.len() as int),
        forall|i: int, j: int|
            0 <= i < j < keys.len() ==> goes_before(keys, #[trigger] a[i], #[trigger] a[j]),
        forall|i: int, j: int|
            0 <= i < j < keys.len() ==> goes_before(keys, #[trigger] b[i], #[trigger] b[j]),
    ensures
        forall|i: int| 0 <= i < n ==> a[i] == b[i],
    decreases n,
{
    if n > 0 {
        lemma_same_listing(keys, a, b, n - 1);
        let i = n - 1;
        if a[i] != b[i] {
            assert(b.contains(a[i]));
            assert(a.contains(b[i]));
            let j = choose|j: int| 0 <= j < b.len() && b[j] == a[i];
            let k = choose|k: int| 0 <= k < a.len() && a[k] == b[i];
            if j < i {
                assert(a[j] == b[j]);
                assert(a[j] != a[i]);
            }
            if k < i {
                assert(a[k] == b[k]);
                assert(b[k] != b[i]);
            }
            assert(goes_before(keys, b[i], b[j]));
            assert(goes_before(keys, a[i], a[k]));
            assert(false);
        }
    }
}

/// The numbers of a list.
pub open spec fn ints(v: Seq<i128>) -> Seq<int> {
    Seq::new(v.len(), |i: int| v[i] as int)
}

/// The positions of a list.
pub open spec fn positions(v: Seq<usize>) -> Seq<int> {
    Seq::new(v.len(), |i: int| v[i] as int)
}

/// The positions of items with the given keys, listed by falling key; items with the same key
/// keep their order.
pub fn order_falling(keys: &Vec<i128>) -> (r: Vec<usize>)
    ensures
        positions(r@) == falling_order(ints(keys@)),
        lists_all(positions(r@), keys@.len() as int),
{
    let ghost all = ints(keys@);
    let mut order: Vec<usize> = Vec::new();
    let mut i: usize = 0;
    assert(positions(order@) =~= falling_order(all.take(0)));
    while i < keys.len()
        invariant
            i <= keys@.len(),
            all == ints(keys@),
            positions(order@) == falling_order(all.take(i as int)),
        decreases keys@.len() - i,
    {
        let ghost shorter = all.take(i as int);
        let ghost longer = all.take(i + 1);
        let ghost before = positions(order@);
        proof {
            law_falling_order(shorter);
            assert(longer.drop_last() =~= shorter);
            assert(longer.last() == all[i as int]);
        }
        let key = keys[i];
        let mut at: usize = order.len();
        assert(before.take(at as int) =~= before);
        while at > 0 && keys[order[at - 1]] < key
            invariant
                at <= order@.len(),
                i < keys@.len(),
                key == keys@[i as int],
                all == ints(keys@),
                longer == all.take(i + 1),
                before == positions(order@),
                forall|k: int| 0 <= k < before.len() ==> 0 <= #[trigger] before[k] < i,
                order@.len() == i,
                place_of(before, longer, key as int) == place_of(
                    before.take(at as int),
                    longer,
                    key as int,
                ),
            decreases at,
        {
            proof {
                let here = before.take(at as int);
                assert(here.last() == before[at - 1]);
                assert(here.drop_last() =~= before.take(at - 1));
                assert(longer[before[at - 1]] == keys@[order@[at - 1] as int]);
            }
            at = at - 1;
        }
        proof {
            let here = before.take(at as int);
            if at > 0 {
                assert(here.last() == before[at - 1]);
                assert(0 <= before[at - 1] < i);
                assert(longer[before[at - 1]] == keys@[order@[at - 1] as int]);
            }
            assert(place_of(before, longer, key as int) == at);
        }
        order.insert(at, i);
        assert(positions(order@) =~= before.insert(at as int, i as int));
        i = i + 1;
    }
    proof {
        assert(all.take(i as int) =~= all);
        law_falling_order(all);
    }
    order
}

/// The items of a list in the given order.
pub open spec fn listed<T>(items: Seq<T>, order: Seq<int>) -> Seq<T> {
    Seq::new(order.len(), |i: int| items[order[i]])
}

/// The first items of a list, as many as there are but no more than `limit`.
pub open spec fn first_of<T>(items: Seq<T>, limit: int) -> Seq<T> {
    items.take(
        if items.len() < limit {
            items.len() as int
        } else {
            limit
        },
    )
}

/// A list of items ordered by their keys is ordered by the items' keys.
pub proof fn lemma_listed<T>(items: Seq<T>, keys: Seq<int>, i: int, j: int)
    requires
        items.len() == keys.len(),
        0 <= i < j < items.len(),
    ensures
        0 <= falling_order(keys)[i] < items.len(),
        0 <= falling_order(keys)[j] < items.len(),
        listed(items, falling_order(keys))[i] == items[falling_order(keys)[i]],
        listed(items, falling_order(keys))[j] == items[falling_order(keys)[j]],
        keys[falling_order(keys)[i]] >= keys[falling_order(keys)[j]],
{
    law_falling_order(keys);
    assert(goes_before(keys, falling_order(keys)[i], falling_order(keys)[j]));
}

/// The texts of a list in the given order, as many as the limit allows.
pub fn list_texts(items: &Vec<String>, order: &Vec<usize>, limit: usize) -> (r: Vec<String>)
    requires
        lists_all(positions(order@), items@.len() as int),
    ensures
        text::texts(r@) == first_of(
            listed(text::texts(items@), positions(order@)),
            limit as int,
        ),
{
    let ghost all = listed(text::texts(items@), positions(order@));
    let mut out: Vec<String> = Vec::new();
    let mut i: usize = 0;
    assert(text::texts(out@) =~= all.take(0));
    while i < order.len() && i < limit
        invariant
            i <= order@.len(),
            i <= limit,
            lists_all(positions(order@), items@.len() as int),
            all == listed(text::texts(items@), positions(order@)),
            text::texts(out@) == all.take(i as int),
        decreases order@.len() - i,
    {
        let ghost before = text::texts(out@);
        assert(positions(order@)[i as int] == order@[i as int]);
        out.push(items[order[i]].clone());
        proof {
            assert(text::texts(out@) =~= before.push(items@[order@[i as int] as int]@));
            assert(text::texts(out@) =~= all.take(i + 1));
        }
        i = i + 1;
    }
    out
}

/// Scores stand as the numbers do that their bits are: of two without the sign bit the one with the
/// larger bits is above, of two with it the one with the smaller bits; those with it are below
/// those without, but for the two zeros, which stand at the same level.
pub proof fn law_levels(a: Score, b: Score)
    ensures
        a.bits < 0x8000_0000 && b.bits < 0x8000_0000 ==> (a.level() < b.level() <==> a.bits < b.bits),
        a.bits >= 0x8000_0000 && b.bits >= 0x8000_0000 ==> (a.level() < b.level() <==> a.bits
            > b.bits),
        a.bits > 0x8000_0000 && b.bits < 0x8000_0000 ==> a.level() < b.level(),
        a.bits == 0x8000_0000 && b.bits == 0 ==> a.level() == b.level(),
{
}

/// Of two items that are listed by falling keys, the first one has the larger key, or the same key
/// and the smaller number.
pub proof fn law_ties_keep_their_order(keys: Seq<int>, i: int, j: int)
    requires
        0 <= i < j < keys.len(),
    ensures
        ({
            let order = falling_order(keys);
            &&& order.len() == keys.len()
            &&& 0 <= order[i] < keys.len() && 0 <= order[j] < keys.len()
            &&& keys[order[i]] > keys[order[j]] || keys[order[i]] == keys[order[j]] && order[i]
                < order[j]
        }),
{
    law_falling_order(keys);
    let order = falling_order(keys);
    assert(goes_before(keys, order[i], order[j]));
}

} // verus!
