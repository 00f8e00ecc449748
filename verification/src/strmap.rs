//! A small map keyed by text, kept as a list of entries with distinct keys.

use vstd::prelude::*;

verus! {

/// The map that a list of (key, value) entries with distinct keys stands for.
pub open spec fn entries_map<V>(s: Seq<(Seq<char>, V)>) -> Map<Seq<char>, V>
    decreases s.len(),
{
    if s.len() == 0 {
        Map::empty()
    } else {
        entries_map(s.drop_last()).insert(s.last().0, s.last().1)
    }
}

/// No key occurs twice.
pub open spec fn distinct_keys<V>(s: Seq<(Seq<char>, V)>) -> bool {
    forall|i: int, j: int| 0 <= i < j < s.len() ==> #[trigger] s[i].0 != #[trigger] s[j].0
}

/// With distinct keys, the map holds exactly the listed keys, each with its
/// listed value.
pub proof fn lemma_entries_map<V>(s: Seq<(Seq<char>, V)>)
    requires
        distinct_keys(s),
    ensures
        forall|k: Seq<char>| #[trigger]
            entries_map(s).contains_key(k) <==> exists|i: int| 0 <= i < s.len() && s[i].0 == k,
        forall|i: int| 0 <= i < s.len() ==> #[trigger] entries_map(s)[s[i].0] == s[i].1,
    decreases s.len(),
{
    if s.len() > 0 {
        let t = s.drop_last();
        assert(distinct_keys(t));
        lemma_entries_map(t);
        assert forall|k: Seq<char>| #[trigger]
            entries_map(s).contains_key(k) <==> exists|i: int| 0 <= i < s.len() && s[i].0 == k by {
            if entries_map(s).contains_key(k) {
                if k == s.last().0 {
                    assert(s[s.len() - 1].0 == k);
                } else {
                    assert(entries_map(t).contains_key(k));
                    let i = choose|i: int| 0 <= i < t.len() && t[i].0 == k;
                    assert(s[i].0 == k);
                }
            }
            if exists|i: int| 0 <= i < s.len() && s[i].0 == k {
                let i = choose|i: int| 0 <= i < s.len() && s[i].0 == k;
                if i < s.len() - 1 {
                    assert(t[i].0 == k);
                    assert(entries_map(t).contains_key(k));
                }
            }
        }
        assert forall|i: int| 0 <= i < s.len() implies #[trigger] entries_map(s)[s[i].0] == s[i].1 by {
            if i < s.len() - 1 {
                assert(t[i] == s[i]);
                assert(s[i].0 != s[s.len() - 1].0);
                assert(entries_map(t)[t[i].0] == t[i].1);
            }
        }
    }
}

/// A map from text keys to values; each key occurs at most once.
#[derive(Debug)]
pub struct StrMap<V: View> {
    entries: Vec<(String, V)>,
}

impl<V: View> StrMap<V> {
    /// The entries as (key text, value view) pairs, in insertion order.
    pub closed spec fn entry_views(&self) -> Seq<(Seq<char>, V::V)> {
        Self::views_of(self.entries@)
    }

    /// Entries as (key text, value view) pairs.
    pub open spec fn views_of(s: Seq<(String, V)>) -> Seq<(Seq<char>, V::V)> {
        s.map_values(|e: (String, V)| (e.0@, e.1@))
    }

    #[verifier::type_invariant]
    spec fn keys_distinct(&self) -> bool {
        distinct_keys(self.entry_views())
    }
}

impl<V: View> View for StrMap<V> {
    type V = Map<Seq<char>, V::V>;

    closed spec fn view(&self) -> Map<Seq<char>, V::V> {
        entries_map(self.entry_views())
    }
}

impl<V: View> StrMap<V> {
    /// An empty map.
    pub fn new() -> (r: Self)
        ensures
            r@ == Map::<Seq<char>, V::V>::empty(),
    {
        let r = StrMap { entries: Vec::new() };
        assert(r.entry_views() =~= Seq::<(Seq<char>, V::V)>::empty());
        r
    }

    /// The position of `key` among the entries, if it is there.
    fn index_of(&self, key: &String) -> (r: Option<usize>)
        ensures
            r matches Some(i) ==> i < self.entry_views().len() && self.entry_views()[i as int].0
                == key@,
            r is None ==> forall|i: int|
                0 <= i < self.entry_views().len() ==> self.entry_views()[i].0 != key@,
    {
        let mut i: usize = 0;
        while i < self.entries.len()
            invariant
                i <= self.entries@.len(),
                forall|j: int| 0 <= j < i ==> self.entry_views()[j].0 != key@,
            decreases self.entries@.len() - i,
        {
            if self.entries[i].0 == *key {
                return Some(i);
            }
            i = i + 1;
        }
        None
    }

    /// The value stored under `key`.
    pub fn get(&self, key: &str) -> (r: Option<&V>)
        ensures
            r matches Some(v) ==> self@.contains_key(key@) && self@[key@] == v@,
            r is None ==> !self@.contains_key(key@),
    {
        proof {
            use_type_invariant(self);
            lemma_entries_map(self.entry_views());
        }
        let k = key.to_owned();
        match self.index_of(&k) {
            Some(i) => {
                assert(self.entry_views()[i as int].1 == self.entries@[i as int].1@);
                Some(&self.entries[i].1)
            },
            None => None,
        }
    }

    /// The entries, each key once, in the order the keys were first inserted.
    pub fn pairs(&self) -> (r: &[(String, V)])
        ensures
            distinct_keys(Self::views_of(r@)),
            entries_map(Self::views_of(r@)) == self@,
    {
        proof {
            use_type_invariant(self);
        }
        self.entries.as_slice()
    }

    /// Whether `key` has a value.
    pub fn contains_key(&self, key: &str) -> (r: bool)
        ensures
            r == self@.contains_key(key@),
    {
        proof {
            use_type_invariant(self);
            lemma_entries_map(self.entry_views());
        }
        let k = key.to_owned();
        self.index_of(&k).is_some()
    }

    /// Whether the map has no entries.
    pub fn is_empty(&self) -> (r: bool)
        ensures
            r == (self@ == Map::<Seq<char>, V::V>::empty()),
    {
        proof {
            use_type_invariant(self);
            lemma_entries_map(self.entry_views());
        }
        if self.entries.len() == 0 {
            assert(self.entry_views() =~= Seq::<(Seq<char>, V::V)>::empty());
            true
        } else {
            assert(self@.contains_key(self.entry_views()[0].0));
            false
        }
    }

    /// The number of keys.
    pub fn len(&self) -> (r: usize)
        ensures
            r == self@.dom().len(),
    {
        proof {
            use_type_invariant(self);
            lemma_entries_map_len(self.entry_views());
        }
        self.entries.len()
    }

    /// Sets `key` to `value`, replacing any value it had.
    pub fn insert(&mut self, key: String, value: V)
        ensures
            final(self)@ == old(self)@.insert(key@, value@),
    {
        proof {
            use_type_invariant(&*self);
            lemma_entries_map(self.entry_views());
        }
        let ghost old_views = self.entry_views();
        match self.index_of(&key) {
            Some(i) => {
                let ghost kv = key@;
                let mut entries = Vec::new();
                std::mem::swap(&mut entries, &mut self.entries);
                entries.set(i, (key, value));
                let ghost new_views = Self::views_of(entries@);
                assert(new_views =~= old_views.update(i as int, (kv, value@)));
                proof {
                    lemma_entries_map(new_views);
                    assert forall|a: int, b: int| 0 <= a < b < new_views.len() implies #[trigger] new_views[a].0
                        != #[trigger] new_views[b].0 by {
                        assert(old_views[a].0 != old_views[b].0);
                    }
                    assert(distinct_keys(new_views));
                    lemma_entries_map(new_views);
                    assert(entries_map(new_views) =~= entries_map(old_views).insert(kv, value@)) by {
                        assert forall|k: Seq<char>| #[trigger] entries_map(new_views).contains_key(k)
                            <==> entries_map(old_views).insert(kv, value@).contains_key(k) by {
                            if entries_map(new_views).contains_key(k) {
                                let j = choose|j: int| 0 <= j < new_views.len() && new_views[j].0 == k;
                                if j != i {
                                    assert(old_views[j].0 == k);
                                }
                            }
                            if entries_map(old_views).contains_key(k) && k != kv {
                                let j = choose|j: int| 0 <= j < old_views.len() && old_views[j].0 == k;
                                assert(new_views[j].0 == k);
                            }
                            assert(new_views[i as int].0 == kv);
                        }
                        assert forall|k: Seq<char>| #[trigger] entries_map(new_views).contains_key(k)
                            implies entries_map(new_views)[k] == entries_map(old_views).insert(
                            kv,
                            value@,
                        )[k] by {
                            let j = choose|j: int| 0 <= j < new_views.len() && new_views[j].0 == k;
                            if j != i {
                                assert(old_views[j].0 == k);
                                assert(entries_map(new_views)[new_views[j].0] == new_views[j].1);
                                assert(entries_map(old_views)[old_views[j].0] == old_views[j].1);
                            } else {
                                assert(entries_map(new_views)[new_views[j].0] == new_views[j].1);
                            }
                        }
                    }
                }
                self.entries = entries;
            },
            None => {
                let ghost kv = key@;
                let mut entries = Vec::new();
                std::mem::swap(&mut entries, &mut self.entries);
                entries.push((key, value));
                let ghost new_views = Self::views_of(entries@);
                assert(new_views =~= old_views.push((kv, value@)));
                assert(new_views.drop_last() =~= old_views);
                assert forall|a: int, b: int| 0 <= a < b < new_views.len() implies #[trigger] new_views[a].0
                    != #[trigger] new_views[b].0 by {
                    if b < old_views.len() {
                        assert(old_views[a].0 != old_views[b].0);
                    } else {
                        assert(old_views[a].0 != kv);
                    }
                }
                self.entries = entries;
            },
        }
    }
}

impl StrMap<String> {
    /// A copy of the map.
    pub fn duplicate(&self) -> (r: Self)
        ensures
            r@ == self@,
    {
        let mut entries: Vec<(String, String)> = Vec::new();
        let mut k: usize = 0;
        while k < self.entries.len()
            invariant
                k <= self.entries@.len(),
                entries@.len() == k,
                forall|j: int|
                    0 <= j < k ==> (#[trigger] entries@[j]).0@ == self.entries@[j].0@
                        && entries@[j].1@ == self.entries@[j].1@,
            decreases self.entries@.len() - k,
        {
            let e = (self.entries[k].0.clone(), self.entries[k].1.clone());
            entries.push(e);
            k = k + 1;
        }
        proof {
            use_type_invariant(self);
            assert(Self::views_of(entries@) =~= self.entry_views());
        }
        StrMap { entries }
    }
}

impl StrMap<bool> {
    /// A copy of the map.
    pub fn duplicate(&self) -> (r: Self)
        ensures
            r@ == self@,
    {
        let mut entries: Vec<(String, bool)> = Vec::new();
        let mut k: usize = 0;
        while k < self.entries.len()
            invariant
                k <= self.entries@.len(),
                entries@.len() == k,
                forall|j: int|
                    0 <= j < k ==> (#[trigger] entries@[j]).0@ == self.entries@[j].0@
                        && entries@[j].1 == self.entries@[j].1,
            decreases self.entries@.len() - k,
        {
            let e = (self.entries[k].0.clone(), self.entries[k].1);
            entries.push(e);
            k = k + 1;
        }
        proof {
            use_type_invariant(self);
            let v = Self::views_of(entries@);
            assert forall|j: int| 0 <= j < v.len() implies v[j] == self.entry_views()[j] by {
                assert(entries@[j].0@ == self.entries@[j].0@);
                assert(entries@[j].1 == self.entries@[j].1);
            }
            assert(v =~= self.entry_views());
        }
        StrMap { entries }
    }
}

/// With distinct keys, the map has as many keys as there are entries.
pub proof fn lemma_entries_map_len<V>(s: Seq<(Seq<char>, V)>)
    requires
        distinct_keys(s),
    ensures
        entries_map(s).dom().finite(),
        entries_map(s).dom().len() == s.len(),
    decreases s.len(),
{
    if s.len() > 0 {
        let t = s.drop_last();
        assert(distinct_keys(t));
        lemma_entries_map_len(t);
        lemma_entries_map(t);
        assert forall|i: int| 0 <= i < t.len() implies t[i].0 != s.last().0 by {
            assert(s[i].0 != s[s.len() - 1].0);
        }
        assert(!entries_map(t).contains_key(s.last().0));
    }
}

} // verus!
