//! A map that keeps its entries in the order in which their keys were first
//! inserted, and is serialized as the sequence of these entries.
use crate::serde::{Deserialize, Deserializer, Error, Serde, Serialize};
use vstd::prelude::*;

verus! {

/// A value by which entries are found.
pub trait Key: DeepView {
    /// Compares two keys.
    fn same(&self, other: &Self) -> (r: bool)
        ensures
            r == (self.deep_view() == other.deep_view()),
    ;
}

impl Key for u32 {
    fn same(&self, other: &Self) -> (r: bool) {
        *self == *other
    }
}

impl Key for u64 {
    fn same(&self, other: &Self) -> (r: bool) {
        *self == *other
    }
}

impl Key for String {
    fn same(&self, other: &Self) -> (r: bool) {
        *self == *other
    }
}

/// No key occurs twice.
pub open spec fn keys_differ<K, V>(s: Seq<(K, V)>) -> bool {
    forall|i: int, j: int| 0 <= i < j < s.len() ==> (#[trigger] s[i]).0 != (#[trigger] s[j]).0
}

/// The place of the first entry with the given key, or the number of entries
/// where there is none.
pub open spec fn place<K, V>(s: Seq<(K, V)>, key: K) -> nat
    decreases s.len(),
{
    if s.len() == 0 {
        0
    } else {
        let before = place(s.drop_last(), key);
        if before < s.len() - 1 || s.last().0 == key {
            before
        } else {
            s.len()
        }
    }
}

/// The entries after a value has been inserted: it replaces that of its key, or
/// comes last.
pub open spec fn inserted<K, V>(s: Seq<(K, V)>, key: K, value: V) -> Seq<(K, V)> {
    if place(s, key) < s.len() {
        s.update(place(s, key) as int, (key, value))
    } else {
        s.push((key, value))
    }
}

/// The entries after all of `s` have been inserted into an empty map.
pub open spec fn collected<K, V>(s: Seq<(K, V)>) -> Seq<(K, V)>
    decreases s.len(),
{
    if s.len() == 0 {
        Seq::empty()
    } else {
        inserted(collected(s.drop_last()), s.last().0, s.last().1)
    }
}

/// The map with the given entries, where a later one prevails.
pub open spec fn entries_map<K, V>(s: Seq<(K, V)>) -> Map<K, V>
    decreases s.len(),
{
    if s.len() == 0 {
        Map::empty()
    } else {
        entries_map(s.drop_last()).insert(s.last().0, s.last().1)
    }
}

pub proof fn lemma_place<K, V>(s: Seq<(K, V)>, key: K)
    ensures
        place(s, key) <= s.len(),
        forall|i: int| 0 <= i < place(s, key) ==> (#[trigger] s[i]).0 != key,
        place(s, key) < s.len() ==> s[place(s, key) as int].0 == key,
    decreases s.len(),
{
    if s.len() > 0 {
        let init = s.drop_last();
        lemma_place(init, key);
        assert forall|i: int| 0 <= i < place(s, key) implies (#[trigger] s[i]).0 != key by {
            if i < place(init, key) {
                assert(init[i].0 != key);
            }
        }
    }
}

/// Inserting keeps the keys apart.
pub proof fn lemma_inserted_keys_differ<K, V>(s: Seq<(K, V)>, key: K, value: V)
    requires
        keys_differ(s),
    ensures
        keys_differ(inserted(s, key, value)),
{
    lemma_place(s, key);
}

/// What is in the map of entries with different keys.
pub proof fn lemma_entries_map<K, V>(s: Seq<(K, V)>, key: K)
    requires
        keys_differ(s),
    ensures
        entries_map(s).contains_key(key) <==> place(s, key) < s.len(),
        place(s, key) < s.len() ==> entries_map(s)[key] == s[place(s, key) as int].1,
    decreases s.len(),
{
    if s.len() > 0 {
        let init = s.drop_last();
        lemma_place(s, key);
        lemma_place(init, key);
        assert(keys_differ(init));
        lemma_entries_map(init, key);
        if s.last().0 == key && place(init, key) < init.len() {
            assert(s[place(init, key) as int].0 == s[s.len() - 1].0);
        }
    }
}

/// What inserting does to one key.
proof fn lemma_inserted_entry<K, V>(s: Seq<(K, V)>, key: K, value: V, k: K)
    requires
        keys_differ(s),
    ensures
        entries_map(inserted(s, key, value)).contains_key(k) == (k == key || entries_map(s).contains_key(k)),
        k == key ==> entries_map(inserted(s, key, value))[k] == value,
        k != key && entries_map(s).contains_key(k) ==> entries_map(inserted(s, key, value))[k] == entries_map(s)[k],
{
    let t = inserted(s, key, value);
    lemma_inserted_keys_differ(s, key, value);
    lemma_entries_map(s, k);
    lemma_entries_map(t, k);
    lemma_place(s, k);
    lemma_place(t, k);
    lemma_place(s, key);
    let (p, q) = (place(s, k), place(t, k));
    if p < s.len() {
        assert(t[p as int].0 == k);
    }
    if q < s.len() {
        assert(t[q as int].0 == k);
        assert(s[q as int].0 == k);
    }
    if place(s, key) == s.len() {
        assert(t[s.len() as int].0 == key);
    } else {
        assert(t[place(s, key) as int].0 == key);
    }
}

/// Inserting into the entries inserts into the map.
pub proof fn lemma_inserted_map<K, V>(s: Seq<(K, V)>, key: K, value: V)
    requires
        keys_differ(s),
    ensures
        entries_map(inserted(s, key, value)) == entries_map(s).insert(key, value),
{
    let (before, after) = (entries_map(s).insert(key, value), entries_map(inserted(s, key, value)));
    assert forall|k: K| #[trigger] after.dom().contains(k) == before.dom().contains(k) by {
        lemma_inserted_entry(s, key, value, k);
    }
    assert forall|k: K| #[trigger] after.dom().contains(k) implies after[k] == before[k] by {
        lemma_inserted_entry(s, key, value, k);
    }
    assert(after =~= before);
}

/// Collected entries have different keys, and form the map in which later
/// entries prevail.
pub proof fn law_collected_is_the_map<K, V>(s: Seq<(K, V)>)
    ensures
        keys_differ(collected(s)),
        entries_map(collected(s)) == entries_map(s),
    decreases s.len(),
{
    if s.len() > 0 {
        let init = s.drop_last();
        law_collected_is_the_map(init);
        lemma_inserted_keys_differ(collected(init), s.last().0, s.last().1);
        lemma_inserted_map(collected(init), s.last().0, s.last().1);
    }
}

/// Entries with different keys are collected as they are.
pub proof fn law_collecting_keeps_entries<K, V>(s: Seq<(K, V)>)
    requires
        keys_differ(s),
    ensures
        collected(s) == s,
    decreases s.len(),
{
    if s.len() > 0 {
        let init = s.drop_last();
        assert(keys_differ(init));
        law_collecting_keeps_entries(init);
        lemma_place(init, s.last().0);
        if place(init, s.last().0) < init.len() {
            assert(s[place(init, s.last().0) as int].0 == s[s.len() - 1].0);
        }
        assert(init.push(s.last()) =~= s);
    } else {
        assert(s =~= Seq::empty());
    }
}

/// A map from keys to values.
pub struct EntryMap<K: Key, V: DeepView> {
    entries: Vec<(K, V)>,
}

impl<K: Key, V: DeepView> DeepView for EntryMap<K, V> {
    /// The entries in their order.
    type V = Seq<(K::V, V::V)>;

    closed spec fn deep_view(&self) -> Seq<(K::V, V::V)> {
        self.entries.deep_view()
    }
}

impl<K: Key, V: DeepView> View for EntryMap<K, V> {
    type V = Map<K::V, V::V>;

    open spec fn view(&self) -> Map<K::V, V::V> {
        entries_map(self.deep_view())
    }
}

impl<K: Key, V: DeepView> EntryMap<K, V> {
    #[verifier::type_invariant]
    spec fn inv(self) -> bool {
        keys_differ(self.entries.deep_view())
    }

    /// Creates an empty map.
    pub fn new() -> (r: Self)
        ensures
            r.deep_view() == Seq::<(K::V, V::V)>::empty(),
            r@ == Map::<K::V, V::V>::empty(),
    {
        let r = EntryMap { entries: Vec::new() };
        assert(r.deep_view() =~= Seq::<(K::V, V::V)>::empty());
        r
    }

    /// The number of entries.
    pub fn len(&self) -> (r: usize)
        ensures
            r == self.deep_view().len(),
    {
        self.entries.len()
    }

    /// The entries, in the order in which their keys were first inserted.
    pub fn entries(&self) -> (r: &Vec<(K, V)>)
        ensures
            r.deep_view() == self.deep_view(),
            keys_differ(self.deep_view()),
    {
        proof {
            use_type_invariant(self);
        }
        &self.entries
    }

    fn find(&self, key: &K) -> (r: usize)
        ensures
            r == place(self.deep_view(), key.deep_view()),
    {
        let ghost s = self.deep_view();
        let n: usize = self.entries.len();
        let mut i: usize = 0;
        while i < n
            invariant
                i <= n,
                n == self.entries@.len(),
                s == self.entries.deep_view(),
                forall|j: int| 0 <= j < i ==> (#[trigger] s[j]).0 != key.deep_view(),
            decreases n - i,
        {
            assert(s[i as int] == self.entries@[i as int].deep_view());
            if self.entries[i].0.same(key) {
                proof {
                    lemma_place(s, key.deep_view());
                    if place(s, key.deep_view()) < i {
                        assert(s[place(s, key.deep_view()) as int].0 == key.deep_view());
                    }
                    assert(s[i as int].0 == key.deep_view());
                }
                return i;
            }
            i = i + 1;
        }
        proof {
            lemma_place(s, key.deep_view());
            if place(s, key.deep_view()) < n {
                assert(s[place(s, key.deep_view()) as int].0 == key.deep_view());
            }
        }
        n
    }

    /// The value of a key.
    pub fn get(&self, key: &K) -> (r: Option<&V>)
        ensures
            match r {
                Some(value) => self@.contains_key(key.deep_view()) && value.deep_view() == self@[key.deep_view()],
                None => !self@.contains_key(key.deep_view()),
            },
    {
        proof {
            use_type_invariant(self);
            lemma_entries_map(self.deep_view(), key.deep_view());
        }
        let at: usize = self.find(key);
        if at < self.entries.len() {
            assert(self.deep_view()[at as int] == self.entries@[at as int].deep_view());
            Some(&self.entries[at].1)
        } else {
            None
        }
    }

    /// Inserts a value, in place of the one that the key had.
    pub fn insert(&mut self, key: K, value: V)
        ensures
            final(self).deep_view() == inserted(old(self).deep_view(), key.deep_view(), value.deep_view()),
            final(self)@ == old(self)@.insert(key.deep_view(), value.deep_view()),
    {
        let ghost s = self.deep_view();
        let ghost t = inserted(s, key.deep_view(), value.deep_view());
        proof {
            use_type_invariant(&*self);
            lemma_inserted_keys_differ(s, key.deep_view(), value.deep_view());
            lemma_inserted_map(s, key.deep_view(), value.deep_view());
        }
        let at: usize = self.find(&key);
        let mut entries: Vec<(K, V)> = Vec::new();
        assert(entries.deep_view() =~= Seq::<(K::V, V::V)>::empty());
        std::mem::swap(&mut entries, &mut self.entries);
        if at < entries.len() {
            entries.set(at, (key, value));
        } else {
            entries.push((key, value));
        }
        assert(entries.deep_view() =~= t);
        self.entries = entries;
    }
}

impl<K: Key + Serialize, V: Serialize> Serialize for EntryMap<K, V> {
    open spec fn encodable(v: Seq<(K::V, V::V)>) -> bool {
        keys_differ(v) && Vec::<(K, V)>::encodable(v)
    }

    open spec fn encoded(v: Seq<(K::V, V::V)>) -> Seq<u32> {
        Vec::<(K, V)>::encoded(v)
    }

    fn serialize(&self, out: &mut Vec<u32>) -> (r: Result<(), Error>) {
        proof {
            use_type_invariant(self);
        }
        self.entries.serialize(out)
    }
}

impl<K: Key + Deserialize, V: Deserialize> Deserialize for EntryMap<K, V> {
    open spec fn decoded(words: Seq<u32>) -> Result<(Seq<(K::V, V::V)>, nat), Error> {
        match Vec::<(K, V)>::decoded(words) {
            Err(e) => Err(e),
            Ok((s, n)) => Ok((collected(s), n)),
        }
    }

    proof fn lemma_decoded_len(words: Seq<u32>) {
        Vec::<(K, V)>::lemma_decoded_len(words);
    }

    fn deserialize<'a>(d: &mut Deserializer<'a>) -> (r: Result<Self, Error>) {
        let mut read: Vec<(K, V)> = match Vec::<(K, V)>::deserialize(d) {
            Ok(read) => read,
            Err(e) => return Err(e),
        };
        let ghost s = read.deep_view();
        let mut map: EntryMap<K, V> = EntryMap::new();
        let ghost mut k: int = 0;
        assert(s.take(0) =~= Seq::<(K::V, V::V)>::empty());
        while read.len() > 0
            invariant
                0 <= k <= s.len(),
                read.deep_view() == s.skip(k),
                map.deep_view() == collected(s.take(k)),
            decreases read@.len(),
        {
            let ghost (before, held) = (read.deep_view(), read@);
            assert(before.len() == read@.len());
            let entry = read.remove(0);
            proof {
                assert(before[0] == entry.deep_view());
                assert(before[0] == s[k]);
                assert(s.take(k + 1).drop_last() =~= s.take(k));
                assert(read.deep_view() =~= before.skip(1)) by {
                    assert forall|i: int| 0 <= i < read@.len() implies read.deep_view()[i] == before[i + 1] by {
                        assert(read@[i] == held[i + 1]);
                    }
                }
                assert(before.skip(1) =~= s.skip(k + 1));
                k = k + 1;
            }
            map.insert(entry.0, entry.1);
        }
        proof {
            assert(s.skip(k).len() == 0);
            assert(s.take(k) =~= s);
        }
        Ok(map)
    }
}

impl<K: Key + Serde, V: Serde> Serde for EntryMap<K, V> {
    proof fn law_reads_back(v: Seq<(K::V, V::V)>, more: Seq<u32>) {
        Vec::<(K, V)>::law_reads_back(v, more);
        law_collecting_keeps_entries(v);
    }
}

} // verus!
