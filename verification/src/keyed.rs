//! A small map from string keys to values, kept as a list of distinct keys.

use vstd::prelude::*;
use crate::text::{chars_of, compare_chars, Order};

verus! {

/// Whether the two strings hold the same characters.
fn str_eq(a: &str, b: &str) -> (r: bool)
    ensures
        r == (a@ == b@),
{
    let x = chars_of(a);
    let y = chars_of(b);
    compare_chars(&x, &y) == Order::Equal
}

/// String keys mapped to values.
pub struct KeyedMap<V> {
    entries: Vec<(String, V)>,
}

/// The map that a list of (key, value) entries with distinct keys stands for.
pub open spec fn entries_map<V>(s: Seq<(String, V)>) -> Map<Seq<char>, V>
    decreases s.len(),
{
    if s.len() == 0 {
        Map::empty()
    } else {
        entries_map(s.drop_last()).insert(s.last().0@, s.last().1)
    }
}

/// No key occurs twice.
pub open spec fn distinct_keys<V>(s: Seq<(String, V)>) -> bool {
    forall|i: int, j: int| 0 <= i < j < s.len() ==> (#[trigger] s[i]).0@ != (#[trigger] s[j]).0@
}

/// Lookup in an entry list: present exactly when some entry has the key,
/// with that entry's value.
pub proof fn lemma_entries_map<V>(s: Seq<(String, V)>)
    requires
        distinct_keys(s),
    ensures
        forall|k: Seq<char>|
            #[trigger] entries_map(s).contains_key(k) <==> exists|i: int|
                0 <= i < s.len() && (#[trigger] s[i]).0@ == k,
        forall|i: int| 0 <= i < s.len() ==> entries_map(s)[(#[trigger] s[i]).0@] == s[i].1,
    decreases s.len(),
{
    if s.len() > 0 {
        let d = s.drop_last();
        assert(distinct_keys(d)) by {
            assert forall|i: int, j: int| 0 <= i < j < d.len() implies (#[trigger] d[i]).0@ != (
            #[trigger] d[j]).0@ by {
                assert(d[i] == s[i] && d[j] == s[j]);
            }
        }
        lemma_entries_map(d);
        assert forall|k: Seq<char>|
            #[trigger] entries_map(s).contains_key(k) <==> exists|i: int|
                0 <= i < s.len() && (#[trigger] s[i]).0@ == k by {
            assert(entries_map(s).contains_key(k) == (entries_map(d).contains_key(k) || k
                == s.last().0@));
            assert(s[s.len() - 1] == s.last());
            if exists|i: int| 0 <= i < d.len() && (#[trigger] d[i]).0@ == k {
                let i = choose|i: int| 0 <= i < d.len() && (#[trigger] d[i]).0@ == k;
                assert(s[i] == d[i]);
            }
            if exists|i: int| 0 <= i < s.len() && (#[trigger] s[i]).0@ == k {
                let i = choose|i: int| 0 <= i < s.len() && (#[trigger] s[i]).0@ == k;
                if i < s.len() - 1 {
                    assert(d[i] == s[i]);
                }
            }
        }
        assert forall|i: int| 0 <= i < s.len() implies entries_map(s)[(#[trigger] s[i]).0@]
            == s[i].1 by {
            if i < s.len() - 1 {
                assert(d[i] == s[i]);
                assert(s[i].0@ != s[s.len() - 1].0@);
            }
        }
    }
}

impl<V> KeyedMap<V> {
    /// The keys mapped to their values.
    pub closed spec fn view(&self) -> Map<Seq<char>, V> {
        entries_map(self.entries@)
    }

    /// Keys are distinct.
    pub closed spec fn wf(&self) -> bool {
        distinct_keys(self.entries@)
    }

    /// An empty map.
    pub fn new() -> (m: Self)
        ensures
            m.wf(),
            m.view() == Map::<Seq<char>, V>::empty(),
    {
        KeyedMap { entries: Vec::new() }
    }

    fn position(&self, key: &str) -> (r: Option<usize>)
        requires
            self.wf(),
        ensures
            match r {
                Some(i) => i < self.entries@.len() && self.entries@[i as int].0@ == key@,
                None => forall|i: int|
                    0 <= i < self.entries@.len() ==> (#[trigger] self.entries@[i]).0@ != key@,
            },
    {
        let mut i: usize = 0;
        while i < self.entries.len()
            invariant
                i <= self.entries@.len(),
                forall|j: int| 0 <= j < i ==> (#[trigger] self.entries@[j]).0@ != key@,
            decreases self.entries@.len() - i,
        {
            if str_eq(self.entries[i].0.as_str(), key) {
                return Some(i);
            }
            i = i + 1;
        }
        None
    }

    /// The value under `key`, if any.
    pub fn get(&self, key: &str) -> (r: Option<&V>)
        requires
            self.wf(),
        ensures
            match r {
                Some(v) => self.view().contains_key(key@) && *v == self.view()[key@],
                None => !self.view().contains_key(key@),
            },
    {
        proof {
            lemma_entries_map(self.entries@);
        }
        match self.position(key) {
            Some(i) => Some(&self.entries[i].1),
            None => None,
        }
    }

    /// Whether `key` has a value.
    pub fn contains_key(&self, key: &str) -> (r: bool)
        requires
            self.wf(),
        ensures
            r == self.view().contains_key(key@),
    {
        proof {
            lemma_entries_map(self.entries@);
        }
        self.position(key).is_some()
    }

    /// Maps `key` to `value`, giving back the value it replaced.
    pub fn insert(&mut self, key: String, value: V) -> (old_value: Option<V>)
        requires
            old(self).wf(),
        ensures
            final(self).wf(),
            final(self).view() == old(self).view().insert(key@, value),
            match old_value {
                Some(v) => old(self).view().contains_key(key@) && v == old(self).view()[key@],
                None => !old(self).view().contains_key(key@),
            },
    {
        let ghost old_entries = self.entries@;
        proof {
            lemma_entries_map(old_entries);
        }
        match self.position(key.as_str()) {
            Some(i) => {
                let (k, v) = self.entries.remove(i);
                self.entries.push((k, value));
                let ghost kv = key@;
                proof {
                    let ne = self.entries@;
                    assert forall|a: int, b: int| 0 <= a < b < ne.len() implies (#[trigger] ne[a]).0@
                        != (#[trigger] ne[b]).0@ by {
                        if b == ne.len() - 1 {
                            if a < i {
                                assert(ne[a] == old_entries[a]);
                            } else {
                                assert(ne[a] == old_entries[a + 1]);
                            }
                        } else {
                            if a < i {
                                assert(ne[a] == old_entries[a]);
                            } else {
                                assert(ne[a] == old_entries[a + 1]);
                            }
                            if b < i {
                                assert(ne[b] == old_entries[b]);
                            } else {
                                assert(ne[b] == old_entries[b + 1]);
                            }
                        }
                    }
                    lemma_entries_map(ne);
                    assert forall|k2: Seq<char>|
                        #[trigger] entries_map(ne).contains_key(k2) == old(self).view().insert(
                            kv,
                            value,
                        ).contains_key(k2) by {
                        if exists|a: int| 0 <= a < old_entries.len() && (#[trigger] old_entries[a]).0@ == k2 {
                            let a = choose|a: int| 0 <= a < old_entries.len() && (#[trigger] old_entries[a]).0@ == k2;
                            if a < i {
                                assert(ne[a] == old_entries[a]);
                            } else if a > i {
                                assert(ne[a - 1] == old_entries[a]);
                            } else {
                                assert(ne[ne.len() - 1].0@ == k2);
                            }
                        }
                        if exists|a: int| 0 <= a < ne.len() && (#[trigger] ne[a]).0@ == k2 {
                            let a = choose|a: int| 0 <= a < ne.len() && (#[trigger] ne[a]).0@ == k2;
                            if a == ne.len() - 1 {
                            } else if a < i {
                                assert(ne[a] == old_entries[a]);
                            } else {
                                assert(ne[a] == old_entries[a + 1]);
                            }
                        }
                    }
                    assert forall|k2: Seq<char>| #[trigger] entries_map(ne).contains_key(k2)
                        implies entries_map(ne)[k2] == old(self).view().insert(kv, value)[k2] by {
                        let a = choose|a: int| 0 <= a < ne.len() && (#[trigger] ne[a]).0@ == k2;
                        assert(entries_map(ne)[ne[a].0@] == ne[a].1);
                        if a == ne.len() - 1 {
                        } else if a < i {
                            assert(ne[a] == old_entries[a]);
                        } else {
                            assert(ne[a] == old_entries[a + 1]);
                        }
                    }
                    assert(entries_map(ne) =~= old(self).view().insert(kv, value));
                }
                Some(v)
            },
            None => {
                self.entries.push((key, value));
                proof {
                    let ne = self.entries@;
                    assert forall|a: int, b: int| 0 <= a < b < ne.len() implies (#[trigger] ne[a]).0@
                        != (#[trigger] ne[b]).0@ by {
                        assert(ne[a] == old_entries[a]);
                        if b < ne.len() - 1 {
                            assert(ne[b] == old_entries[b]);
                        }
                    }
                    assert(ne.drop_last() =~= old_entries);
                }
                None
            },
        }
    }

    /// Removes `key`, giving back its value if it had one.
    pub fn remove(&mut self, key: &str) -> (old_value: Option<V>)
        requires
            old(self).wf(),
        ensures
            final(self).wf(),
            final(self).view() == old(self).view().remove(key@),
            match old_value {
                Some(v) => old(self).view().contains_key(key@) && v == old(self).view()[key@],
                None => !old(self).view().contains_key(key@),
            },
    {
        let ghost old_entries = self.entries@;
        proof {
            lemma_entries_map(old_entries);
        }
        match self.position(key) {
            Some(i) => {
                let (_k, v) = self.entries.remove(i);
                proof {
                    let ne = self.entries@;
                    assert forall|a: int, b: int| 0 <= a < b < ne.len() implies (#[trigger] ne[a]).0@
                        != (#[trigger] ne[b]).0@ by {
                        if a < i {
                            assert(ne[a] == old_entries[a]);
                        } else {
                            assert(ne[a] == old_entries[a + 1]);
                        }
                        if b < i {
                            assert(ne[b] == old_entries[b]);
                        } else {
                            assert(ne[b] == old_entries[b + 1]);
                        }
                    }
                    lemma_entries_map(ne);
                    let target = old(self).view().remove(key@);
                    assert forall|k2: Seq<char>| #[trigger] entries_map(ne).contains_key(k2)
                        == target.contains_key(k2) by {
                        if exists|a: int| 0 <= a < old_entries.len() && (#[trigger] old_entries[a]).0@ == k2 {
                            let a = choose|a: int| 0 <= a < old_entries.len() && (#[trigger] old_entries[a]).0@ == k2;
                            if a < i {
                                assert(ne[a] == old_entries[a]);
                            } else if a > i {
                                assert(ne[a - 1] == old_entries[a]);
                            }
                        }
                        if exists|a: int| 0 <= a < ne.len() && (#[trigger] ne[a]).0@ == k2 {
                            let a = choose|a: int| 0 <= a < ne.len() && (#[trigger] ne[a]).0@ == k2;
                            if a < i {
                                assert(ne[a] == old_entries[a]);
                            } else {
                                assert(ne[a] == old_entries[a + 1]);
                            }
                        }
                    }
                    assert forall|k2: Seq<char>| #[trigger] entries_map(ne).contains_key(k2)
                        implies entries_map(ne)[k2] == target[k2] by {
                        let a = choose|a: int| 0 <= a < ne.len() && (#[trigger] ne[a]).0@ == k2;
                        assert(entries_map(ne)[ne[a].0@] == ne[a].1);
                        if a < i {
                            assert(ne[a] == old_entries[a]);
                        } else {
                            assert(ne[a] == old_entries[a + 1]);
                        }
                    }
                    assert(entries_map(ne) =~= target);
                }
                Some(v)
            },
            None => {
                proof {
                    assert(old(self).view().remove(key@) =~= old(self).view());
                }
                None
            },
        }
    }

    /// The map that these entries, each key once, stand for.
    pub fn from_entries(entries: Vec<(String, V)>) -> (m: Self)
        requires
            distinct_keys(entries@),
        ensures
            m.wf(),
            m.view() == entries_map(entries@),
    {
        KeyedMap { entries }
    }

    /// The entries, each key once.
    pub fn into_entries(self) -> (entries: Vec<(String, V)>)
        requires
            self.wf(),
        ensures
            distinct_keys(entries@),
            entries_map(entries@) == self.view(),
    {
        self.entries
    }
}

} // verus!
