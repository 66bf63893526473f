//! Ordered collections of texts.
use crate::text::{comes_before, precedes, same_text, texts};
use vstd::prelude::*;

verus! {

/// Every text precedes all that follow it.
pub open spec fn ascending(list: Seq<Seq<char>>) -> bool {
    forall|i: int, j: int| 0 <= i < j < list.len() ==> precedes(#[trigger] list[i], #[trigger] list[j])
}

/// No text precedes one before it.
pub open spec fn sorted(list: Seq<Seq<char>>) -> bool {
    forall|i: int, j: int|
        0 <= i < j < list.len() ==> !precedes(#[trigger] list[j], #[trigger] list[i])
}

/// The members of a set of texts in ascending order.
pub open spec fn listing(members: Set<Seq<char>>) -> Seq<Seq<char>> {
    choose|list: Seq<Seq<char>>| ascending(list) && list.to_set() == members
}

/// An ascending list is determined by its members.
pub proof fn lemma_ascending_unique(a: Seq<Seq<char>>, b: Seq<Seq<char>>)
    requires
        ascending(a),
        ascending(b),
        a.to_set() == b.to_set(),
    ensures
        a == b,
    decreases a.len(),
{
    if a.len() == 0 {
        if b.len() > 0 {
            assert(b.to_set().contains(b[0]));
            assert(a.to_set().contains(b[0]));
        }
        assert(a =~= b);
    } else {
        assert(a.to_set().contains(a.last()));
        assert(b.to_set().contains(a.last()));
        assert(b.len() > 0);
        assert(b.to_set().contains(b.last()));
        assert(a.to_set().contains(b.last()));
        let i = choose|i: int| 0 <= i < b.len() && b[i] == a.last();
        let j = choose|j: int| 0 <= j < a.len() && a[j] == b.last();
        if a.last() != b.last() {
            assert(precedes(b[i], b[b.len() - 1]));
            assert(precedes(a[j], a[a.len() - 1]));
            crate::text::lemma_precedes_transitive(a.last(), b.last(), a.last());
            crate::text::lemma_precedes_irreflexive(a.last());
        }
        let x = a.drop_last();
        let y = b.drop_last();
        assert forall|t: Seq<char>| x.to_set().contains(t) == y.to_set().contains(t) by {
            lemma_last_is_new(a);
            lemma_last_is_new(b);
            if x.contains(t) {
                let k = choose|k: int| 0 <= k < x.len() && x[k] == t;
                assert(a[k] == t);
                assert(a.to_set().contains(t));
                assert(b.contains(t));
                let m = choose|m: int| 0 <= m < b.len() && b[m] == t;
                assert(m != b.len() - 1);
                assert(y[m] == t);
            }
            if y.contains(t) {
                let k = choose|k: int| 0 <= k < y.len() && y[k] == t;
                assert(b[k] == t);
                assert(b.to_set().contains(t));
                assert(a.contains(t));
                let m = choose|m: int| 0 <= m < a.len() && a[m] == t;
                assert(m != a.len() - 1);
                assert(x[m] == t);
            }
        }
        assert(x.to_set() =~= y.to_set());
        lemma_ascending_unique(x, y);
        assert(a =~= x.push(a.last()));
        assert(b =~= y.push(b.last()));
    }
}

/// The last member of an ascending list does not occur before its end.
proof fn lemma_last_is_new(a: Seq<Seq<char>>)
    requires
        ascending(a),
        a.len() > 0,
    ensures
        !a.drop_last().contains(a.last()),
{
    if a.drop_last().contains(a.last()) {
        let k = choose|k: int| 0 <= k < a.drop_last().len() && a.drop_last()[k] == a.last();
        assert(precedes(a[k], a[a.len() - 1]));
        crate::text::lemma_precedes_irreflexive(a.last());
    }
}

/// An ascending list is the listing of its members.
pub proof fn lemma_listing(list: Seq<Seq<char>>)
    requires
        ascending(list),
    ensures
        listing(list.to_set()) == list,
{
    let other = listing(list.to_set());
    assert(ascending(other) && other.to_set() == list.to_set());
    lemma_ascending_unique(other, list);
}

/// Whether a list holds a text.
pub fn contains_text(list: &Vec<String>, wanted: &str) -> (r: bool)
    ensures
        r == texts(list@).contains(wanted@),
{
    let mut i: usize = 0;
    while i < list.len()
        invariant
            i <= list@.len(),
            forall|j: int| 0 <= j < i ==> list@[j]@ != wanted@,
        decreases list@.len() - i,
    {
        if same_text(list[i].as_str(), wanted) {
            assert(texts(list@)[i as int] == wanted@);
            return true;
        }
        i += 1;
    }
    assert forall|j: int| 0 <= j < texts(list@).len() implies texts(list@)[j] != wanted@ by {
        assert(texts(list@)[j] == list@[j]@);
    }
    false
}

/// Adds a text to an ascending list, where it is not there yet.
pub fn insert_ascending(list: &mut Vec<String>, value: String)
    requires
        ascending(texts(old(list)@)),
    ensures
        ascending(texts(final(list)@)),
        texts(final(list)@).to_set() == texts(old(list)@).to_set().insert(value@),
{
    let ghost before = texts(list@);
    let mut i: usize = 0;
    while i < list.len() && comes_before(list[i].as_str(), value.as_str())
        invariant
            i <= list@.len(),
            list@ == old(list)@,
            before == texts(list@),
            ascending(before),
            forall|j: int| 0 <= j < i ==> precedes(before[j], value@),
        decreases list@.len() - i,
    {
        assert(before[i as int] == list@[i as int]@);
        i += 1;
    }
    if i < list.len() && same_text(list[i].as_str(), value.as_str()) {
        proof {
            assert(before[i as int] == value@);
            assert(before.to_set().contains(value@));
            assert(before.to_set().insert(value@) =~= before.to_set());
        }
        return;
    }
    let ghost v = value@;
    proof {
        if i < list@.len() {
            assert(before[i as int] == list@[i as int]@);
            crate::text::lemma_precedes_total(before[i as int], v);
            assert forall|j: int| i <= j < before.len() implies precedes(v, #[trigger] before[j]) by {
                if j > i {
                    crate::text::lemma_precedes_transitive(v, before[i as int], before[j]);
                }
            }
        }
    }
    list.insert(i, value);
    proof {
        let after = texts(list@);
        assert(after =~= before.insert(i as int, v));
        assert forall|a: int, b: int| 0 <= a < b < after.len() implies precedes(
            #[trigger] after[a],
            #[trigger] after[b],
        ) by {
            if a < i {
                assert(after[a] == before[a]);
                if b > i {
                    assert(after[b] == before[b - 1]);
                } else if b < i {
                    assert(after[b] == before[b]);
                }
            } else if a == i {
                assert(after[b] == before[b - 1]);
            } else {
                assert(after[a] == before[a - 1]);
                assert(after[b] == before[b - 1]);
            }
        }
        assert forall|t: Seq<char>| after.to_set().contains(t) == before.to_set().insert(v).contains(t) by {
            if after.contains(t) {
                let k = choose|k: int| 0 <= k < after.len() && after[k] == t;
                if k < i {
                    assert(before[k] == t);
                } else if k > i {
                    assert(before[k - 1] == t);
                }
            }
            if before.contains(t) {
                let k = choose|k: int| 0 <= k < before.len() && before[k] == t;
                if k < i {
                    assert(after[k] == t);
                } else {
                    assert(after[k + 1] == t);
                }
            }
            assert(after[i as int] == v);
        }
        assert(after.to_set() =~= before.to_set().insert(v));
    }
}

/// Adds a text to a sorted list.
pub fn insert_sorted(list: &mut Vec<String>, value: String)
    requires
        sorted(texts(old(list)@)),
    ensures
        sorted(texts(final(list)@)),
        texts(final(list)@).to_multiset() == texts(old(list)@).to_multiset().insert(value@),
{
    let ghost before = texts(list@);
    let mut i: usize = 0;
    while i < list.len() && !comes_before(value.as_str(), list[i].as_str())
        invariant
            i <= list@.len(),
            list@ == old(list)@,
            before == texts(list@),
            sorted(before),
            forall|j: int| 0 <= j < i ==> !precedes(value@, before[j]),
        decreases list@.len() - i,
    {
        assert(before[i as int] == list@[i as int]@);
        i += 1;
    }
    let ghost v = value@;
    proof {
        if i < list@.len() {
            assert(before[i as int] == list@[i as int]@);
            assert forall|j: int| i <= j < before.len() implies !precedes(#[trigger] before[j], v) by {
                if precedes(before[j], v) {
                    crate::text::lemma_precedes_transitive(before[j], v, before[i as int]);
                    if j == i {
                        crate::text::lemma_precedes_irreflexive(before[j]);
                    }
                }
            }
        }
    }
    list.insert(i, value);
    proof {
        let after = texts(list@);
        assert(after =~= before.insert(i as int, v));
        assert forall|a: int, b: int| 0 <= a < b < after.len() implies !precedes(
            #[trigger] after[b],
            #[trigger] after[a],
        ) by {
            if a < i {
                assert(after[a] == before[a]);
                if b > i {
                    assert(after[b] == before[b - 1]);
                } else if b < i {
                    assert(after[b] == before[b]);
                }
            } else if a == i {
                assert(after[b] == before[b - 1]);
            } else {
                assert(after[a] == before[a - 1]);
                assert(after[b] == before[b - 1]);
            }
        }
        vstd::seq_lib::to_multiset_insert(before, i as int, v);
    }
}

/// A map from texts to values whose keys stand in ascending order.
pub struct TextMap<T: View> {
    entries: Vec<(String, T)>,
}

/// The keys of a list of entries.
pub closed spec fn entry_keys<T: View>(entries: Seq<(String, T)>) -> Seq<Seq<char>> {
    Seq::new(entries.len(), |i: int| entries[i].0@)
}

impl<T: View> View for TextMap<T> {
    type V = Map<Seq<char>, T::V>;

    closed spec fn view(&self) -> Map<Seq<char>, T::V> {
        let keys = entry_keys(self.entries@);
        Map::new(|k: Seq<char>| keys.contains(k), |k: Seq<char>| self.entries@[keys.index_of(k)].1@)
    }
}

impl<T: View> TextMap<T> {
    #[verifier::type_invariant]
    spec fn in_order(self) -> bool {
        ascending(entry_keys(self.entries@))
    }

    proof fn lemma_keys(self)
        requires
            self.in_order(),
        ensures
            self@.dom() == entry_keys(self.entries@).to_set(),
            listing(self@.dom()) == entry_keys(self.entries@),
            forall|i: int|
                0 <= i < self.entries@.len() ==> {
                    &&& self@.contains_key(#[trigger] self.entries@[i].0@)
                    &&& self@[self.entries@[i].0@] == self.entries@[i].1@
                },
    {
        let keys = entry_keys(self.entries@);
        assert(self@.dom() =~= keys.to_set());
        lemma_listing(keys);
        assert forall|i: int| 0 <= i < self.entries@.len() implies {
            &&& self@.contains_key(#[trigger] self.entries@[i].0@)
            &&& self@[self.entries@[i].0@] == self.entries@[i].1@
        } by {
            let k = self.entries@[i].0@;
            assert(keys[i] == k);
            assert(keys.contains(k));
            let j = keys.index_of(k);
            assert(0 <= j < keys.len() && keys[j] == k);
            if i < j {
                assert(precedes(keys[i], keys[j]));
                crate::text::lemma_precedes_irreflexive(k);
            }
            if j < i {
                assert(precedes(keys[j], keys[i]));
                crate::text::lemma_precedes_irreflexive(k);
            }
        }
    }

    /// The map without entries.
    pub fn new() -> (r: Self)
        ensures
            r@ == Map::<Seq<char>, T::V>::empty(),
    {
        let r = TextMap { entries: Vec::new() };
        assert(r@ =~= Map::<Seq<char>, T::V>::empty());
        r
    }

    /// The number of entries.
    pub fn len(&self) -> (r: usize)
        ensures
            r == listing(self@.dom()).len(),
            r == self@.dom().len(),
            self@.dom().finite(),
            ascending(listing(self@.dom())),
            listing(self@.dom()).to_set() == self@.dom(),
    {
        proof {
            use_type_invariant(self);
            self.lemma_keys();
            let keys = entry_keys(self.entries@);
            lemma_ascending_no_duplicates(keys);
            keys.unique_seq_to_set();
            vstd::seq_lib::seq_to_set_is_finite(keys);
        }
        self.entries.len()
    }

    /// The key at a position of the ascending order.
    pub fn key_at(&self, position: usize) -> (r: &String)
        requires
            position < listing(self@.dom()).len(),
        ensures
            r@ == listing(self@.dom())[position as int],
            self@.contains_key(r@),
    {
        proof {
            use_type_invariant(self);
            self.lemma_keys();
        }
        &self.entries[position].0
    }

    /// The value at a position of the ascending order of keys.
    pub fn value_at(&self, position: usize) -> (r: &T)
        requires
            position < listing(self@.dom()).len(),
        ensures
            self@.contains_key(listing(self@.dom())[position as int]),
            r@ == self@[listing(self@.dom())[position as int]],
    {
        proof {
            use_type_invariant(self);
            self.lemma_keys();
        }
        &self.entries[position].1
    }

    /// The position of a key, or where it would stand.
    fn find(&self, key: &str) -> (r: (usize, bool))
        ensures
            r.0 <= self.entries@.len(),
            r.1 == self@.contains_key(key@),
            r.1 ==> r.0 < self.entries@.len() && self.entries@[r.0 as int].0@ == key@,
            forall|j: int| 0 <= j < r.0 ==> precedes(#[trigger] self.entries@[j].0@, key@),
            !r.1 ==> forall|j: int|
                r.0 <= j < self.entries@.len() ==> precedes(key@, #[trigger] self.entries@[j].0@),
    {
        proof {
            use_type_invariant(self);
            self.lemma_keys();
        }
        let ghost keys = entry_keys(self.entries@);
        let mut i: usize = 0;
        while i < self.entries.len() && comes_before(self.entries[i].0.as_str(), key)
            invariant
                i <= self.entries@.len(),
                forall|j: int| 0 <= j < i ==> precedes(#[trigger] self.entries@[j].0@, key@),
            decreases self.entries@.len() - i,
        {
            i += 1;
        }
        if i < self.entries.len() && same_text(self.entries[i].0.as_str(), key) {
            assert(keys[i as int] == key@);
            return (i, true);
        }
        proof {
            assert forall|j: int| i <= j < self.entries@.len() implies precedes(
                key@,
                #[trigger] self.entries@[j].0@,
            ) by {
                crate::text::lemma_precedes_total(keys[i as int], key@);
                if j > i {
                    assert(precedes(keys[i as int], keys[j]));
                    crate::text::lemma_precedes_transitive(key@, keys[i as int], keys[j]);
                }
            }
            if self@.contains_key(key@) {
                let k = choose|k: int| 0 <= k < keys.len() && keys[k] == key@;
                assert(self.entries@[k].0@ == key@);
                crate::text::lemma_precedes_irreflexive(key@);
            }
        }
        (i, false)
    }

    /// Whether a key is present.
    pub fn contains(&self, key: &str) -> (r: bool)
        ensures
            r == self@.contains_key(key@),
    {
        self.find(key).1
    }

    /// The value of a key.
    pub fn get(&self, key: &str) -> (r: Option<&T>)
        ensures
            match r {
                Some(value) => self@.contains_key(key@) && value@ == self@[key@],
                None => !self@.contains_key(key@),
            },
    {
        proof {
            use_type_invariant(self);
            self.lemma_keys();
        }
        let (i, found) = self.find(key);
        if found {
            Some(&self.entries[i].1)
        } else {
            None
        }
    }

    /// Gives a key a value.
    pub fn insert(&mut self, key: String, value: T)
        ensures
            final(self)@ == old(self)@.insert(key@, value@),
    {
        proof {
            use_type_invariant(&*self);
            self.lemma_keys();
        }
        let ghost before = *self;
        let ghost k = key@;
        let ghost v = value@;
        let (i, found) = self.find(key.as_str());
        let mut entries: Vec<(String, T)> = Vec::new();
        proof {
            assert(ascending(entry_keys(entries@)));
        }
        std::mem::swap(&mut entries, &mut self.entries);
        let ghost older = entries@;
        if found {
            entries.set(i, (key, value));
            proof {
                assert(entry_keys(entries@) =~= entry_keys(older));
            }
        } else {
            entries.insert(i, (key, value));
            proof {
                lemma_insert_ascending(older, i as int, entries@, k);
            }
        }
        self.entries = entries;
        proof {
            self.lemma_keys();
            lemma_insert_map(before, *self, i as int, found, k, v);
        }
    }

    /// Removes the entry with the first key.
    pub fn remove_first(&mut self)
        requires
            old(self)@.dom().len() > 0,
        ensures
            final(self)@ == old(self)@.remove(listing(old(self)@.dom())[0]),
            listing(final(self)@.dom()) == listing(old(self)@.dom()).drop_first(),
    {
        let count: usize = self.len();
        proof {
            use_type_invariant(&*self);
            self.lemma_keys();
        }
        let ghost before = *self;
        let mut entries: Vec<(String, T)> = Vec::new();
        std::mem::swap(&mut entries, &mut self.entries);
        let ghost older = entries@;
        let _ = entries.remove(0);
        proof {
            let keys = entry_keys(older);
            let rest = entry_keys(entries@);
            assert(rest =~= keys.drop_first());
            assert forall|a: int, b: int| 0 <= a < b < rest.len() implies precedes(
                #[trigger] rest[a],
                #[trigger] rest[b],
            ) by {
                assert(precedes(keys[a + 1], keys[b + 1]));
            }
        }
        self.entries = entries;
        proof {
            self.lemma_keys();
            let keys = entry_keys(older);
            let rest = entry_keys(self.entries@);
            let gone = keys[0];
            assert forall|t: Seq<char>| self@.contains_key(t) == before@.remove(gone).contains_key(t) by {
                if rest.contains(t) {
                    let j = choose|j: int| 0 <= j < rest.len() && rest[j] == t;
                    assert(keys[j + 1] == t);
                    assert(precedes(keys[0], keys[j + 1]));
                    crate::text::lemma_precedes_irreflexive(gone);
                }
                if keys.contains(t) && t != gone {
                    let j = choose|j: int| 0 <= j < keys.len() && keys[j] == t;
                    assert(rest[j - 1] == t);
                }
            }
            assert forall|t: Seq<char>| self@.contains_key(t) implies self@[t] == before@.remove(gone)[t] by {
                let j = choose|j: int| 0 <= j < rest.len() && rest[j] == t;
                assert(self.entries@[j].0@ == t);
                assert(older[j + 1] == self.entries@[j]);
                assert(before.entries@[j + 1].0@ == t);
            }
            assert(self@ =~= before@.remove(gone));
        }
    }
}

/// An ascending list has no duplicates.
pub proof fn lemma_ascending_no_duplicates(list: Seq<Seq<char>>)
    requires
        ascending(list),
    ensures
        list.no_duplicates(),
{
    assert forall|i: int, j: int| 0 <= i < list.len() && 0 <= j < list.len() && i != j implies list[i]
        != list[j] by {
        crate::text::lemma_precedes_irreflexive(list[i]);
        if i < j {
            assert(precedes(list[i], list[j]));
        } else {
            assert(precedes(list[j], list[i]));
        }
    }
}

proof fn lemma_insert_ascending<T: View>(
    older: Seq<(String, T)>,
    at: int,
    newer: Seq<(String, T)>,
    key: Seq<char>,
)
    requires
        ascending(entry_keys(older)),
        0 <= at <= older.len(),
        newer.len() == older.len() + 1,
        newer[at].0@ == key,
        forall|j: int| 0 <= j < at ==> newer[j] == older[j],
        forall|j: int| at <= j < older.len() ==> newer[j + 1] == #[trigger] older[j],
        forall|j: int| 0 <= j < at ==> precedes(#[trigger] older[j].0@, key),
        forall|j: int| at <= j < older.len() ==> precedes(key, #[trigger] older[j].0@),
    ensures
        ascending(entry_keys(newer)),
{
    let a = entry_keys(older);
    let b = entry_keys(newer);
    assert forall|i: int, j: int| 0 <= i < j < b.len() implies precedes(
        #[trigger] b[i],
        #[trigger] b[j],
    ) by {
        if i < at {
            assert(newer[i] == older[i]);
            if j < at {
                assert(newer[j] == older[j]);
                assert(precedes(a[i], a[j]));
            } else if j > at {
                assert(newer[j - 1 + 1] == older[j - 1]);
                assert(precedes(a[i], a[j - 1]));
            }
        } else {
            assert(newer[j - 1 + 1] == older[j - 1]);
            if i > at {
                assert(newer[i - 1 + 1] == older[i - 1]);
                assert(precedes(a[i - 1], a[j - 1]));
            }
        }
    }
}

proof fn lemma_insert_map<T: View>(
    before: TextMap<T>,
    after: TextMap<T>,
    at: int,
    found: bool,
    key: Seq<char>,
    value: T::V,
)
    requires
        before.in_order(),
        after.in_order(),
        0 <= at <= before.entries@.len(),
        found ==> at < before.entries@.len() && before.entries@[at].0@ == key,
        found ==> after.entries@.len() == before.entries@.len() && after.entries@[at].0@ == key
            && after.entries@[at].1@ == value && forall|j: int|
            0 <= j < before.entries@.len() && j != at ==> after.entries@[j] == before.entries@[j],
        !found ==> after.entries@.len() == before.entries@.len() + 1 && after.entries@[at].0@ == key
            && after.entries@[at].1@ == value && (forall|j: int|
            0 <= j < at ==> after.entries@[j] == before.entries@[j]) && (forall|j: int|
            at <= j < before.entries@.len() ==> after.entries@[j + 1] == #[trigger] before.entries@[j]),
    ensures
        after@ == before@.insert(key, value),
{
    before.lemma_keys();
    after.lemma_keys();
    let a = entry_keys(before.entries@);
    let b = entry_keys(after.entries@);
    assert(after.entries@[at].0@ == key);
    assert forall|t: Seq<char>| after@.contains_key(t) == before@.insert(key, value).contains_key(t) by {
        if b.contains(t) {
            let j = choose|j: int| 0 <= j < b.len() && b[j] == t;
            if found {
                if j != at {
                    assert(a[j] == t);
                }
            } else if j < at {
                assert(a[j] == t);
            } else if j > at {
                assert(after.entries@[j - 1 + 1] == before.entries@[j - 1]);
                assert(a[j - 1] == t);
            }
        }
        if a.contains(t) {
            let j = choose|j: int| 0 <= j < a.len() && a[j] == t;
            if found || j < at {
                assert(b[j] == t);
            } else {
                assert(after.entries@[j + 1] == before.entries@[j]);
                assert(b[j + 1] == t);
            }
        }
        assert(b[at] == key);
    }
    assert forall|t: Seq<char>| after@.contains_key(t) implies after@[t] == before@.insert(key, value)[t] by {
        if t != key {
            let j = choose|j: int| 0 <= j < a.len() && a[j] == t;
            assert(before.entries@[j].0@ == t);
            if found || j < at {
                assert(after.entries@[j] == before.entries@[j]);
                assert(after.entries@[j].0@ == t);
            } else {
                assert(after.entries@[j + 1] == before.entries@[j]);
                assert(after.entries@[j + 1].0@ == t);
            }
        }
    }
    assert(after@ =~= before@.insert(key, value));
}

/// A set of texts.
pub struct TextSet {
    members: Vec<String>,
}

impl View for TextSet {
    type V = Set<Seq<char>>;

    closed spec fn view(&self) -> Set<Seq<char>> {
        texts(self.members@).to_set()
    }
}

impl TextSet {
    /// The empty set.
    pub fn new() -> (r: Self)
        ensures
            r@ == Set::<Seq<char>>::empty(),
    {
        let r = TextSet { members: Vec::new() };
        assert(r@ =~= Set::<Seq<char>>::empty());
        r
    }

    /// The members in some order.
    pub fn as_list(&self) -> (r: &Vec<String>)
        ensures
            texts(r@).to_set() == self@,
    {
        &self.members
    }

    /// Whether a text is a member.
    pub fn contains(&self, value: &str) -> (r: bool)
        ensures
            r == self@.contains(value@),
    {
        contains_text(&self.members, value)
    }

    /// Adds a member and says whether it is new.
    pub fn insert(&mut self, value: String) -> (r: bool)
        ensures
            r == !old(self)@.contains(value@),
            final(self)@ == old(self)@.insert(value@),
    {
        if self.contains(value.as_str()) {
            proof {
                assert(self@.insert(value@) =~= self@);
            }
            return false;
        }
        let ghost before = texts(self.members@);
        let ghost v = value@;
        self.members.push(value);
        proof {
            assert(texts(self.members@) =~= before.push(v));
            before.lemma_push_to_set_commute(v);
        }
        true
    }

    /// Takes a member out.
    pub fn remove(&mut self, value: &str)
        ensures
            final(self)@ == old(self)@.remove(value@),
    {
        let mut kept: Vec<String> = Vec::new();
        let mut i: usize = 0;
        while i < self.members.len()
            invariant
                i <= self.members@.len(),
                self@ == old(self)@,
                texts(kept@).to_set() =~= texts(self.members@).take(i as int).to_set().remove(value@),
            decreases self.members@.len() - i,
        {
            let ghost all = texts(self.members@);
            let ghost had = texts(kept@);
            proof {
                assert(all.take(i + 1) =~= all.take(i as int).push(all[i as int]));
                all.take(i as int).lemma_push_to_set_commute(all[i as int]);
            }
            if !same_text(self.members[i].as_str(), value) {
                kept.push(self.members[i].clone());
                proof {
                    assert(texts(kept@) =~= had.push(all[i as int]));
                    had.lemma_push_to_set_commute(all[i as int]);
                }
            }
            i += 1;
        }
        proof {
            assert(texts(self.members@).take(i as int) =~= texts(self.members@));
        }
        self.members = kept;
    }
}

/// A set of pairs of texts.
pub struct PairSet {
    members: Vec<(String, String)>,
}

/// The pairs of texts in a list.
pub open spec fn pairs(list: Seq<(String, String)>) -> Seq<(Seq<char>, Seq<char>)> {
    list.map_values(|p: (String, String)| (p.0@, p.1@))
}

impl View for PairSet {
    type V = Set<(Seq<char>, Seq<char>)>;

    closed spec fn view(&self) -> Set<(Seq<char>, Seq<char>)> {
        pairs(self.members@).to_set()
    }
}

impl PairSet {
    /// The empty set.
    pub fn new() -> (r: Self)
        ensures
            r@ == Set::<(Seq<char>, Seq<char>)>::empty(),
    {
        let r = PairSet { members: Vec::new() };
        assert(r@ =~= Set::<(Seq<char>, Seq<char>)>::empty());
        r
    }

    /// The members in some order.
    pub fn as_list(&self) -> (r: &Vec<(String, String)>)
        ensures
            pairs(r@).to_set() == self@,
    {
        &self.members
    }

    /// Whether a pair is a member.
    pub fn contains(&self, first: &str, second: &str) -> (r: bool)
        ensures
            r == self@.contains((first@, second@)),
    {
        let ghost all = pairs(self.members@);
        let mut i: usize = 0;
        while i < self.members.len()
            invariant
                i <= self.members@.len(),
                all == pairs(self.members@),
                forall|j: int| 0 <= j < i ==> all[j] != (first@, second@),
            decreases self.members@.len() - i,
        {
            let pair = &self.members[i];
            if same_text(pair.0.as_str(), first) && same_text(pair.1.as_str(), second) {
                assert(all[i as int] == (first@, second@));
                return true;
            }
            i += 1;
        }
        false
    }

    /// Adds a pair.
    pub fn insert(&mut self, first: String, second: String)
        ensures
            final(self)@ == old(self)@.insert((first@, second@)),
    {
        if self.contains(first.as_str(), second.as_str()) {
            proof {
                assert(self@.insert((first@, second@)) =~= self@);
            }
            return ;
        }
        let ghost before = pairs(self.members@);
        let ghost v = (first@, second@);
        self.members.push((first, second));
        proof {
            assert(pairs(self.members@) =~= before.push(v));
            before.lemma_push_to_set_commute(v);
        }
    }
}

/// The values of a map in the ascending order of their keys.
pub open spec fn in_order<V>(map: Map<Seq<char>, V>) -> Seq<V> {
    Seq::new(listing(map.dom()).len(), |i: int| map[listing(map.dom())[i]])
}

/// A list in its order.
pub open spec fn sorted_list(list: Seq<Seq<char>>) -> Seq<Seq<char>> {
    choose|other: Seq<Seq<char>>| sorted(other) && other.to_multiset() == list.to_multiset()
}

/// A sorted list is determined by what it holds.
pub proof fn lemma_sorted_unique(a: Seq<Seq<char>>, b: Seq<Seq<char>>)
    requires
        sorted(a),
        sorted(b),
        a.to_multiset() == b.to_multiset(),
    ensures
        a == b,
    decreases a.len(),
{
    a.to_multiset_ensures();
    b.to_multiset_ensures();
    assert(a.len() == b.len());
    if a.len() == 0 {
        assert(a =~= b);
    } else {
        let x = a.last();
        let y = b.last();
        assert(a.contains(x));
        assert(b.contains(y));
        assert(a.to_multiset().count(x) > 0);
        assert(b.to_multiset().count(y) > 0);
        assert(b.contains(x));
        assert(a.contains(y));
        let i = choose|i: int| 0 <= i < b.len() && b[i] == x;
        let j = choose|j: int| 0 <= j < a.len() && a[j] == y;
        crate::text::lemma_precedes_irreflexive(x);
        assert(!precedes(y, x));
        assert(!precedes(x, y));
        crate::text::lemma_precedes_total(x, y);
        assert(a.drop_last() =~= a.remove(a.len() - 1));
        assert(b.drop_last() =~= b.remove(b.len() - 1));
        assert(a.drop_last().to_multiset() == a.to_multiset().remove(x));
        assert(b.drop_last().to_multiset() == b.to_multiset().remove(y));
        lemma_sorted_unique(a.drop_last(), b.drop_last());
        assert(a =~= a.drop_last().push(x));
        assert(b =~= b.drop_last().push(y));
    }
}

/// The texts of a list in their order.
pub fn sort_texts(list: &Vec<String>) -> (r: Vec<String>)
    ensures
        sorted(texts(r@)),
        texts(r@).to_multiset() == texts(list@).to_multiset(),
        texts(r@) == sorted_list(texts(list@)),
        r@.len() == list@.len(),
{
    let mut out: Vec<String> = Vec::new();
    let ghost all = texts(list@);
    let mut i: usize = 0;
    assert(all.take(0) =~= texts(out@));
    while i < list.len()
        invariant
            i <= list@.len(),
            all == texts(list@),
            sorted(texts(out@)),
            texts(out@).to_multiset() == all.take(i as int).to_multiset(),
        decreases list@.len() - i,
    {
        assert(all.take(i + 1) =~= all.take(i as int).push(all[i as int]));
        proof {
            all.take(i as int).to_multiset_ensures();
        }
        insert_sorted(&mut out, list[i].clone());
        i += 1;
    }
    assert(all.take(i as int) =~= all);
    proof {
        texts(out@).to_multiset_ensures();
        all.to_multiset_ensures();
        lemma_sorted_unique(texts(out@), sorted_list(all));
    }
    out
}

/// The distinct texts of a list in ascending order.
pub fn unique_texts(list: &Vec<String>) -> (r: Vec<String>)
    ensures
        texts(r@) == listing(texts(list@).to_set()),
        ascending(texts(r@)),
        texts(r@).to_set() == texts(list@).to_set(),
{
    let mut out: Vec<String> = Vec::new();
    let ghost all = texts(list@);
    let mut i: usize = 0;
    assert(all.take(0).to_set() =~= texts(out@).to_set());
    while i < list.len()
        invariant
            i <= list@.len(),
            all == texts(list@),
            ascending(texts(out@)),
            texts(out@).to_set() == all.take(i as int).to_set(),
        decreases list@.len() - i,
    {
        proof {
            lemma_take_set(all, i as int);
        }
        insert_ascending(&mut out, list[i].clone());
        i += 1;
    }
    assert(all.take(i as int) =~= all);
    proof {
        lemma_listing(texts(out@));
    }
    out
}

/// One more element of a list is one more member.
pub proof fn lemma_take_set<A>(list: Seq<A>, i: int)
    requires
        0 <= i < list.len(),
    ensures
        list.take(i + 1).to_set() == list.take(i).to_set().insert(list[i]),
{
    let before = list.take(i);
    let after = list.take(i + 1);
    assert(after[i] == list[i]);
    assert forall|x: A| after.to_set().contains(x) == before.to_set().insert(list[i]).contains(x) by {
        if after.contains(x) {
            let k = choose|k: int| 0 <= k < after.len() && after[k] == x;
            if k < i {
                assert(before[k] == x);
            }
        }
        if before.contains(x) {
            let k = choose|k: int| 0 <= k < before.len() && before[k] == x;
            assert(after[k] == x);
        }
        if x == list[i] {
            assert(after.contains(after[i]));
        }
    }
    assert(after.to_set() =~= before.to_set().insert(list[i]));
}

/// A list in its order holds what the list holds.
pub proof fn lemma_sorted_list(list: Seq<Seq<char>>)
    ensures
        sorted(sorted_list(list)),
        sorted_list(list).to_multiset() == list.to_multiset(),
    decreases list.len(),
{
    if list.len() == 0 {
        let none = Seq::<Seq<char>>::empty();
        assert(list =~= none);
        assert(sorted(none) && none.to_multiset() == list.to_multiset());
    } else {
        let init = list.drop_last();
        lemma_sorted_list(init);
        let longer = lemma_place_sorted(sorted_list(init), list.last());
        assert(list =~= init.push(list.last()));
        init.to_multiset_ensures();
        assert(sorted(longer) && longer.to_multiset() == list.to_multiset());
    }
}

/// Every text has its place in a sorted list.
proof fn lemma_place_sorted(list: Seq<Seq<char>>, x: Seq<char>) -> (r: Seq<Seq<char>>)
    requires
        sorted(list),
    ensures
        sorted(r),
        r.to_multiset() == list.to_multiset().insert(x),
    decreases list.len(),
{
    list.to_multiset_ensures();
    if list.len() == 0 || !precedes(x, list.last()) {
        let r = list.push(x);
        assert forall|i: int, j: int| 0 <= i < j < r.len() implies !precedes(
            #[trigger] r[j],
            #[trigger] r[i],
        ) by {
            if j == list.len() {
                if i < list.len() - 1 && precedes(x, list[i]) {
                    assert(!precedes(list[list.len() - 1], list[i]));
                    crate::text::lemma_precedes_total(list[list.len() - 1], list[i]);
                    if precedes(list[i], list[list.len() - 1]) {
                        crate::text::lemma_precedes_transitive(x, list[i], list[list.len() - 1]);
                    }
                }
            } else {
                assert(r[j] == list[j]);
                assert(r[i] == list[i]);
            }
        }
        r
    } else {
        let last = list.last();
        let init = list.drop_last();
        assert forall|i: int, j: int| 0 <= i < j < init.len() implies !precedes(
            #[trigger] init[j],
            #[trigger] init[i],
        ) by {
            assert(!precedes(list[j], list[i]));
        }
        let placed = lemma_place_sorted(init, x);
        let r = placed.push(last);
        placed.to_multiset_ensures();
        init.to_multiset_ensures();
        assert(list =~= init.push(last));
        assert(r.to_multiset() =~= list.to_multiset().insert(x));
        assert forall|i: int| 0 <= i < placed.len() implies !precedes(last, #[trigger] placed[i]) by {
            assert(placed.contains(placed[i]));
            assert(placed.to_multiset().count(placed[i]) > 0);
            if placed[i] == x {
                if precedes(last, x) {
                    crate::text::lemma_precedes_transitive(x, last, x);
                    crate::text::lemma_precedes_irreflexive(x);
                }
            } else {
                assert(init.to_multiset().count(placed[i]) > 0);
                assert(init.contains(placed[i]));
                let k = choose|k: int| 0 <= k < init.len() && init[k] == placed[i];
                assert(!precedes(list[list.len() - 1], list[k]));
            }
        }
        assert forall|i: int, j: int| 0 <= i < j < r.len() implies !precedes(
            #[trigger] r[j],
            #[trigger] r[i],
        ) by {
            if j == placed.len() {
                assert(r[i] == placed[i]);
            } else {
                assert(r[j] == placed[j]);
                assert(r[i] == placed[i]);
            }
        }
        r
    }
}

} // verus!
