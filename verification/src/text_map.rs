//! Maps with texts as keys, walked in the order of their keys.
use vstd::prelude::*;

use crate::text;
use crate::text::text_less;

verus! {

/// A map from texts to values, held as its entries in the order of their keys.
#[derive(Debug, Clone)]
pub struct TextMap<V> {
    entries: Vec<(String, V)>,
}

/// The entries with their keys as sequences of characters.
pub open spec fn entry_views<V>(v: Seq<(String, V)>) -> Seq<(Seq<char>, V)> {
    Seq::new(v.len(), |i: int| (v[i].0@, v[i].1))
}

/// Whether the keys come in strictly ascending order.
pub open spec fn is_ordered<V>(s: Seq<(Seq<char>, V)>) -> bool {
    forall|i: int, j: int|
        0 <= i < j < s.len() ==> text::text_lt((#[trigger] s[i]).0, (#[trigger] s[j]).0)
}

/// Whether `key` is the key of the entry at `i`.
pub open spec fn is_key_at<V>(s: Seq<(Seq<char>, V)>, key: Seq<char>, i: int) -> bool {
    0 <= i < s.len() && s[i].0 == key
}

/// Whether any entry has the key `key`.
pub open spec fn has_key<V>(s: Seq<(Seq<char>, V)>, key: Seq<char>) -> bool {
    exists|i: int| is_key_at(s, key, i)
}

/// The value at `key`, where there is one.
pub open spec fn value_of<V>(s: Seq<(Seq<char>, V)>, key: Seq<char>) -> Option<V> {
    if has_key(s, key) {
        Some(s[choose|i: int| is_key_at(s, key, i)].1)
    } else {
        None
    }
}

/// In an ordered list of entries a key stands at one place only.
pub proof fn lemma_key_unique<V>(s: Seq<(Seq<char>, V)>, i: int, j: int)
    requires
        is_ordered(s),
        0 <= i < s.len(),
        0 <= j < s.len(),
        s[i].0 == s[j].0,
    ensures
        i == j,
{
    text::lemma_text_lt_irreflexive(s[i].0);
}

/// The value of an entry is the value at its key.
pub proof fn lemma_value_of<V>(s: Seq<(Seq<char>, V)>, i: int)
    requires
        is_ordered(s),
        0 <= i < s.len(),
    ensures
        value_of(s, s[i].0) == Some(s[i].1),
{
    assert(is_key_at(s, s[i].0, i));
    let j = choose|j: int| is_key_at(s, s[i].0, j);
    lemma_key_unique(s, i, j);
}

/// Two ordered lists of entries with the same values at the same keys are the same list.
pub proof fn lemma_ordered_entries_determined<V>(
    a: Seq<(Seq<char>, V)>,
    b: Seq<(Seq<char>, V)>,
)
    requires
        is_ordered(a),
        is_ordered(b),
        forall|k: Seq<char>| #[trigger] value_of(a, k) == value_of(b, k),
    ensures
        a == b,
    decreases a.len(),
{
    if a.len() == 0 {
        if b.len() > 0 {
            lemma_value_of(b, 0);
            assert(value_of(a, b[0].0) == value_of(b, b[0].0));
            assert(has_key(a, b[0].0));
        }
        assert(a =~= b);
    } else {
        lemma_value_of(a, a.len() - 1);
        let k = a.last().0;
        assert(value_of(a, k) == value_of(b, k));
        assert(has_key(b, k));
        let j = choose|j: int| is_key_at(b, k, j);
        if j < b.len() - 1 {
            let m = b.last().0;
            lemma_value_of(b, b.len() - 1);
            assert(value_of(a, m) == value_of(b, m));
            assert(has_key(a, m));
            let i = choose|i: int| is_key_at(a, m, i);
            assert(text::text_lt(k, m));
            if i < a.len() - 1 {
                assert(text::text_lt(a[i].0, a.last().0));
                text::lemma_text_lt_transitive(k, m, k);
            }
            text::lemma_text_lt_irreflexive(k);
        }
        assert(j == b.len() - 1);
        lemma_value_of(b, j);
        let a0 = a.drop_last();
        let b0 = b.drop_last();
        assert forall|x: Seq<char>| #[trigger] value_of(a0, x) == value_of(b0, x) by {
            assert(value_of(a, x) == value_of(b, x));
            lemma_drop_last(a, x);
            lemma_drop_last(b, x);
        }
        lemma_ordered_entries_determined(a0, b0);
        assert(a =~= a0.push(a.last()));
        assert(b =~= b0.push(b.last()));
    }
}

proof fn lemma_drop_last<V>(s: Seq<(Seq<char>, V)>, x: Seq<char>)
    requires
        is_ordered(s),
        s.len() > 0,
    ensures
        value_of(s.drop_last(), x) == (if x == s.last().0 {
            None
        } else {
            value_of(s, x)
        }),
{
    let t = s.drop_last();
    if has_key(t, x) {
        let i = choose|i: int| is_key_at(t, x, i);
        assert(is_key_at(s, x, i));
        lemma_value_of(t, i);
        lemma_value_of(s, i);
        if x == s.last().0 {
            lemma_key_unique(s, i, s.len() - 1);
        }
    } else if has_key(s, x) && x != s.last().0 {
        let i = choose|i: int| is_key_at(s, x, i);
        assert(is_key_at(t, x, i));
    }
}

impl<V> View for TextMap<V> {
    type V = Seq<(Seq<char>, V)>;

    closed spec fn view(&self) -> Seq<(Seq<char>, V)> {
        Seq::new(self.entries@.len(), |i: int| (self.entries@[i].0@, self.entries@[i].1))
    }
}

impl<V> TextMap<V> {
    /// The entries stand in the order of their keys, and no key occurs twice.
    pub open spec fn wf(&self) -> bool {
        is_ordered(self@)
    }

    /// The map without entries.
    pub fn new() -> (r: Self)
        ensures
            r.wf(),
            r@ == Seq::<(Seq<char>, V)>::empty(),
    {
        let r = TextMap { entries: Vec::new() };
        assert(r@ =~= Seq::<(Seq<char>, V)>::empty());
        r
    }

    /// The map with the given entries, which come in the order of their keys.
    pub(crate) fn from_ordered(entries: Vec<(String, V)>) -> (r: Self)
        requires
            is_ordered(entry_views(entries@)),
        ensures
            r.wf(),
            r@ == entry_views(entries@),
    {
        let r = TextMap { entries };
        assert(r@ =~= entry_views(entries@));
        r
    }

    /// How many entries there are.
    pub fn len(&self) -> (r: usize)
        ensures
            r == self@.len(),
    {
        self.entries.len()
    }

    /// Whether there are no entries.
    pub fn is_empty(&self) -> (r: bool)
        ensures
            r == (self@.len() == 0),
    {
        self.entries.len() == 0
    }

    /// The key of the entry at `i`, counted in the order of the keys.
    pub fn key_at(&self, i: usize) -> (r: &String)
        requires
            i < self@.len(),
        ensures
            r@ == self@[i as int].0,
    {
        &self.entries[i].0
    }

    /// The value of the entry at `i`, counted in the order of the keys.
    pub fn value_at(&self, i: usize) -> (r: &V)
        requires
            i < self@.len(),
        ensures
            *r == self@[i as int].1,
    {
        &self.entries[i].1
    }

    /// How many keys come before `key`.
    fn position(&self, key: &str) -> (r: usize)
        requires
            self.wf(),
        ensures
            r <= self@.len(),
            forall|i: int| 0 <= i < r ==> text::text_lt((#[trigger] self@[i]).0, key@),
            forall|i: int| r <= i < self@.len() ==> !text::text_lt((#[trigger] self@[i]).0, key@),
    {
        let mut lo: usize = 0;
        let mut hi: usize = self.entries.len();
        while lo < hi
            invariant
                self.wf(),
                lo <= hi <= self@.len(),
                self.entries@.len() == self@.len(),
                forall|i: int| 0 <= i < lo ==> text::text_lt((#[trigger] self@[i]).0, key@),
                forall|i: int|
                    hi <= i < self@.len() ==> !text::text_lt((#[trigger] self@[i]).0, key@),
            decreases hi - lo,
        {
            let mid: usize = lo + (hi - lo) / 2;
            if text_less(self.entries[mid].0.as_str(), key) {
                proof {
                    assert(text::text_lt(self@[mid as int].0, key@));
                    assert forall|i: int| 0 <= i <= mid implies text::text_lt(
                        (#[trigger] self@[i]).0,
                        key@,
                    ) by {
                        if i < mid {
                            text::lemma_text_lt_transitive(self@[i].0, self@[mid as int].0, key@);
                        }
                    }
                }
                lo = mid + 1;
            } else {
                proof {
                    assert(!text::text_lt(self@[mid as int].0, key@));
                    assert forall|i: int| mid <= i < self@.len() implies !text::text_lt(
                        (#[trigger] self@[i]).0,
                        key@,
                    ) by {
                        if i > mid && text::text_lt(self@[i].0, key@) {
                            text::lemma_text_lt_transitive(self@[mid as int].0, self@[i].0, key@);
                        }
                    }
                }
                hi = mid;
            }
        }
        lo
    }

    /// The value at `key`, where there is one.
    pub fn get(&self, key: &str) -> (r: Option<&V>)
        requires
            self.wf(),
        ensures
            match value_of(self@, key@) {
                Some(v) => r is Some && *r->0 == v,
                None => r is None,
            },
    {
        let at: usize = self.position(key);
        if at < self.entries.len() && text::same_text(self.entries[at].0.as_str(), key) {
            proof {
                lemma_value_of(self@, at as int);
            }
            Some(&self.entries[at].1)
        } else {
            proof {
                if has_key(self@, key@) {
                    let i = choose|i: int| is_key_at(self@, key@, i);
                    text::lemma_text_lt_irreflexive(key@);
                    assert(i >= at);
                    if i > at {
                        assert(text::text_lt(self@[at as int].0, self@[i].0));
                    }
                }
            }
            None
        }
    }

    /// Whether there is a value at `key`.
    pub fn contains_key(&self, key: &str) -> (r: bool)
        requires
            self.wf(),
        ensures
            r == has_key(self@, key@),
    {
        self.get(key).is_some()
    }

    /// Puts `value` at `key`, in place of the value that was there.
    pub fn insert(&mut self, key: String, value: V)
        requires
            old(self).wf(),
        ensures
            final(self).wf(),
            forall|k: Seq<char>| #[trigger]
                value_of(final(self)@, k) == (if k == key@ {
                    Some(value)
                } else {
                    value_of(old(self)@, k)
                }),
            final(self)@.len() == old(self)@.len() + (if has_key(old(self)@, key@) {
                0int
            } else {
                1int
            }),
    {
        let ghost before = self@;
        let at: usize = self.position(key.as_str());
        let ghost name = key@;
        proof {
            text::lemma_text_lt_irreflexive(name);
        }
        if at < self.entries.len() && self.entries[at].0 == key {
            let ghost old_key = self.entries@[at as int].0@;
            self.entries.set(at, (key, value));
            proof {
                assert(self@ =~= before.update(at as int, (name, value)));
                assert(is_ordered(self@)) by {
                    assert forall|i: int, j: int| 0 <= i < j < self@.len() implies text::text_lt(
                        (#[trigger] self@[i]).0,
                        (#[trigger] self@[j]).0,
                    ) by {
                        assert(before[i].0 == self@[i].0);
                        assert(before[j].0 == self@[j].0);
                        assert(text::text_lt(before[i].0, before[j].0));
                    }
                }
                assert(is_key_at(before, name, at as int));
                assert forall|k: Seq<char>| #[trigger]
                    value_of(self@, k) == (if k == name {
                        Some(value)
                    } else {
                        value_of(before, k)
                    }) by {
                    lemma_changed(before, self@, at as int, k);
                }
            }
        } else {
            proof {
                if has_key(before, name) {
                    let i = choose|i: int| is_key_at(before, name, i);
                    assert(i >= at);
                    if i > at {
                        assert(text::text_lt(before[at as int].0, before[i].0));
                    }
                }
                if at < before.len() {
                    text::lemma_text_lt_total(before[at as int].0, name);
                }
            }
            self.entries.insert(at, (key, value));
            proof {
                assert(self@ =~= before.insert(at as int, (name, value)));
                assert(is_ordered(self@)) by {
                    assert forall|i: int, j: int| 0 <= i < j < self@.len() implies text::text_lt(
                        (#[trigger] self@[i]).0,
                        (#[trigger] self@[j]).0,
                    ) by {
                        let i0 = if i < at {
                            i
                        } else {
                            i - 1
                        };
                        let j0 = if j < at {
                            j
                        } else {
                            j - 1
                        };
                        if i == at {
                            assert(self@[j] == before[j0]);
                            if j0 > at {
                                assert(text::text_lt(before[at as int].0, before[j0].0));
                                text::lemma_text_lt_transitive(
                                    name,
                                    before[at as int].0,
                                    before[j0].0,
                                );
                            }
                        } else if j == at {
                            assert(self@[i] == before[i]);
                            assert(text::text_lt(before[i].0, name));
                        } else {
                            assert(self@[i] == before[i0]);
                            assert(self@[j] == before[j0]);
                            assert(text::text_lt(before[i0].0, before[j0].0));
                        }
                    }
                }
                assert forall|k: Seq<char>| #[trigger]
                    value_of(self@, k) == (if k == name {
                        Some(value)
                    } else {
                        value_of(before, k)
                    }) by {
                    lemma_inserted(before, self@, at as int, k);
                }
            }
        }
    }
}

proof fn lemma_changed<V>(
    before: Seq<(Seq<char>, V)>,
    after: Seq<(Seq<char>, V)>,
    at: int,
    k: Seq<char>,
)
    requires
        is_ordered(before),
        is_ordered(after),
        0 <= at < before.len(),
        after.len() == before.len(),
        after[at].0 == before[at].0,
        forall|i: int| 0 <= i < before.len() && i != at ==> after[i] == before[i],
    ensures
        value_of(after, k) == (if k == after[at].0 {
            Some(after[at].1)
        } else {
            value_of(before, k)
        }),
{
    lemma_value_of(after, at);
    if k != after[at].0 {
        if has_key(before, k) {
            let i = choose|i: int| is_key_at(before, k, i);
            assert(is_key_at(after, k, i));
            lemma_value_of(after, i);
            lemma_value_of(before, i);
        } else if has_key(after, k) {
            let i = choose|i: int| is_key_at(after, k, i);
            assert(is_key_at(before, k, i));
        }
    }
}

proof fn lemma_inserted<V>(
    before: Seq<(Seq<char>, V)>,
    after: Seq<(Seq<char>, V)>,
    at: int,
    k: Seq<char>,
)
    requires
        is_ordered(before),
        is_ordered(after),
        0 <= at <= before.len(),
        0 <= at < after.len(),
        after == before.insert(at, after[at]),
    ensures
        value_of(after, k) == (if k == after[at].0 {
            Some(after[at].1)
        } else {
            value_of(before, k)
        }),
{
    lemma_value_of(after, at);
    if k != after[at].0 {
        if has_key(before, k) {
            let i = choose|i: int| is_key_at(before, k, i);
            let j = if i < at {
                i
            } else {
                i + 1
            };
            assert(after[j] == before[i]);
            assert(is_key_at(after, k, j));
            lemma_value_of(after, j);
            lemma_value_of(before, i);
        } else if has_key(after, k) {
            let i = choose|i: int| is_key_at(after, k, i);
            let j = if i < at {
                i
            } else {
                i - 1
            };
            assert(after[i] == before[j]);
            assert(is_key_at(before, k, j));
        }
    }
}

/// The entries with the value at `key` set to `value`.
pub open spec fn put<V>(s: Seq<(Seq<char>, V)>, key: Seq<char>, value: V) -> Seq<(Seq<char>, V)>
    decreases s.len(),
{
    if s.len() == 0 {
        seq![(key, value)]
    } else if s.last().0 == key {
        s.drop_last().push((key, value))
    } else if text::text_lt(s.last().0, key) {
        s.push((key, value))
    } else {
        put(s.drop_last(), key, value).push(s.last())
    }
}

/// Setting a value keeps the entries in order and changes no other value.
pub proof fn lemma_put<V>(s: Seq<(Seq<char>, V)>, key: Seq<char>, value: V)
    requires
        is_ordered(s),
    ensures
        is_ordered(put(s, key, value)),
        forall|k: Seq<char>| #[trigger]
            value_of(put(s, key, value), k) == (if k == key {
                Some(value)
            } else {
                value_of(s, k)
            }),
        forall|i: int|
            0 <= i < put(s, key, value).len() ==> (#[trigger] put(s, key, value)[i]).0 == key
                || has_key(s, put(s, key, value)[i].0),
    decreases s.len(),
{
    let r = put(s, key, value);
    if s.len() == 0 {
        assert(is_key_at(r, key, 0));
        lemma_value_of(r, 0);
    } else {
        let before = s.drop_last();
        assert forall|i: int, j: int| 0 <= i < j < before.len() implies text::text_lt(
            (#[trigger] before[i]).0,
            (#[trigger] before[j]).0,
        ) by {
            assert(before[i] == s[i] && before[j] == s[j]);
        }
        text::lemma_text_lt_total(s.last().0, key);
        lemma_put(before, key, value);
        let inner = put(before, key, value);
        let n = s.len() - 1;
        assert forall|i: int, j: int| 0 <= i < j < r.len() implies text::text_lt(
            (#[trigger] r[i]).0,
            (#[trigger] r[j]).0,
        ) by {
            if s.last().0 == key {
                assert(r[i].0 == s[i].0 && r[j].0 == s[j].0);
            } else if text::text_lt(s.last().0, key) {
                assert(r[i] == s[i]);
                if j < s.len() {
                    assert(r[j] == s[j]);
                } else if i < n {
                    assert(text::text_lt(s[i].0, s[n].0));
                    text::lemma_text_lt_transitive(s[i].0, s[n].0, key);
                }
            } else {
                assert(r[i] == inner[i]);
                if j < inner.len() {
                    assert(r[j] == inner[j]);
                } else if inner[i].0 != key {
                    let k = choose|k: int| is_key_at(before, inner[i].0, k);
                    assert(before[k] == s[k]);
                    assert(text::text_lt(s[k].0, s[n].0));
                }
            }
        }
        assert forall|k: Seq<char>| #[trigger] value_of(r, k) == (if k == key {
            Some(value)
        } else {
            value_of(s, k)
        }) by {
            lemma_drop_last(r, k);
            lemma_drop_last(s, k);
            lemma_value_of(r, r.len() - 1);
            lemma_value_of(s, n);
            if s.last().0 == key {
                assert(r.drop_last() =~= before);
            } else if text::text_lt(s.last().0, key) {
                assert(r.drop_last() =~= s);
            } else {
                assert(r.drop_last() =~= inner);
            }
        }
        assert forall|i: int| 0 <= i < r.len() implies (#[trigger] r[i]).0 == key || has_key(
            s,
            r[i].0,
        ) by {
            if s.last().0 != key && !text::text_lt(s.last().0, key) {
                if i < inner.len() {
                    assert(r[i] == inner[i]);
                    if inner[i].0 != key {
                        let k = choose|k: int| is_key_at(before, inner[i].0, k);
                        assert(is_key_at(s, r[i].0, k));
                    }
                } else {
                    assert(is_key_at(s, r[i].0, n));
                }
            } else if i < n {
                assert(is_key_at(s, r[i].0, i));
            } else if i == n && s.last().0 != key {
                assert(is_key_at(s, r[i].0, n));
            }
        }
    }
}

/// The entries in the order of their keys, each key with its last value.
pub open spec fn put_all<V>(s: Seq<(Seq<char>, V)>) -> Seq<(Seq<char>, V)>
    decreases s.len(),
{
    if s.len() == 0 {
        Seq::empty()
    } else {
        put(put_all(s.drop_last()), s.last().0, s.last().1)
    }
}

/// Entries that stand in order are put as they stand.
pub proof fn lemma_put_all_ordered<V>(s: Seq<(Seq<char>, V)>)
    requires
        is_ordered(s),
    ensures
        put_all(s) == s,
    decreases s.len(),
{
    if s.len() > 0 {
        let shorter = s.drop_last();
        assert forall|i: int, j: int| 0 <= i < j < shorter.len() implies text::text_lt(
            (#[trigger] shorter[i]).0,
            (#[trigger] shorter[j]).0,
        ) by {
            assert(text::text_lt(s[i].0, s[j].0));
        }
        lemma_put_all_ordered(shorter);
        if shorter.len() > 0 {
            assert(text::text_lt(s[s.len() - 2].0, s[s.len() - 1].0));
            text::lemma_text_lt_irreflexive(s.last().0);
        }
        assert(put_all(s) =~= s);
    }
}

/// What is put stands in order, and a key has one of the values that were given for it.
pub proof fn lemma_put_all<V>(s: Seq<(Seq<char>, V)>)
    ensures
        is_ordered(put_all(s)),
        forall|k: Seq<char>| #[trigger] has_key(put_all(s), k) == has_key(s, k),
        forall|k: Seq<char>|
            has_key(s, k) ==> exists|i: int| #[trigger]
                is_key_at(s, k, i) && value_of(put_all(s), k) == Some(s[i].1),
    decreases s.len(),
{
    if s.len() > 0 {
        let shorter = s.drop_last();
        let n = s.len() - 1;
        let all = put_all(shorter);
        lemma_put_all(shorter);
        lemma_put(all, s.last().0, s.last().1);
        assert(is_key_at(s, s.last().0, n));
        assert forall|k: Seq<char>| #[trigger] has_key(put_all(s), k) == has_key(s, k) by {
            assert(value_of(put_all(s), k) == (if k == s.last().0 {
                Some(s.last().1)
            } else {
                value_of(all, k)
            }));
            if k != s.last().0 {
                assert(has_key(all, k) == has_key(shorter, k));
                if has_key(shorter, k) {
                    let i = choose|i: int| is_key_at(shorter, k, i);
                    assert(is_key_at(s, k, i));
                }
                if has_key(s, k) {
                    let i = choose|i: int| is_key_at(s, k, i);
                    assert(is_key_at(shorter, k, i));
                }
            }
        }
        assert forall|k: Seq<char>| has_key(s, k) implies exists|i: int| #[trigger]
            is_key_at(s, k, i) && value_of(put_all(s), k) == Some(s[i].1) by {
            assert(value_of(put_all(s), k) == (if k == s.last().0 {
                Some(s.last().1)
            } else {
                value_of(all, k)
            }));
            if k == s.last().0 {
                assert(is_key_at(s, k, n));
            } else {
                let j = choose|j: int| is_key_at(s, k, j);
                assert(is_key_at(shorter, k, j));
                assert(has_key(shorter, k));
                let i = choose|i: int|
                    #[trigger] is_key_at(shorter, k, i) && value_of(all, k) == Some(
                        shorter[i].1,
                    );
                assert(is_key_at(s, k, i));
            }
        }
    }
}

} // verus!
