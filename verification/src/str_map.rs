//! A map from strings to values, kept as a list of entries with distinct keys.
use vstd::prelude::*;

use crate::text::same_text;

verus! {

/// A map from strings to values.
pub struct StrMap<V> {
    entries: Vec<(String, V)>,
}

/// The key of entry `i`.
pub open spec fn key_at<V>(e: Seq<(String, V)>, i: int) -> Seq<char> {
    e[i].0@
}

/// Whether some entry has key `k`.
pub open spec fn has_key<V>(e: Seq<(String, V)>, k: Seq<char>) -> bool {
    exists|i: int| 0 <= i < e.len() && #[trigger] key_at(e, i) == k
}

/// The entry that holds key `k`.
pub open spec fn index_of<V>(e: Seq<(String, V)>, k: Seq<char>) -> int {
    choose|i: int| 0 <= i < e.len() && #[trigger] key_at(e, i) == k
}

/// No two entries share a key.
pub open spec fn distinct_keys<V>(e: Seq<(String, V)>) -> bool {
    forall|i: int, j: int|
        0 <= i < e.len() && 0 <= j < e.len() && i != j ==> #[trigger] key_at(e, i) != #[trigger] key_at(
            e,
            j,
        )
}

/// The map that a list of entries with distinct keys holds.
pub open spec fn entries_map<V: View>(e: Seq<(String, V)>) -> Map<Seq<char>, V::V> {
    Map::new(|k: Seq<char>| has_key(e, k), |k: Seq<char>| e[index_of(e, k)].1@)
}

impl<V: View> View for StrMap<V> {
    type V = Map<Seq<char>, V::V>;

    closed spec fn view(&self) -> Map<Seq<char>, V::V> {
        entries_map(self.entries@)
    }
}

/// Entry `i` of a list with distinct keys is what the map holds for its key.
proof fn lemma_entry<V: View>(e: Seq<(String, V)>, i: int)
    requires
        distinct_keys(e),
        0 <= i < e.len(),
    ensures
        entries_map(e).contains_key(key_at(e, i)),
        entries_map(e)[key_at(e, i)] == e[i].1@,
{
    let k = key_at(e, i);
    assert(has_key(e, k));
    let j = index_of(e, k);
    assert(key_at(e, j) == k);
    assert(j == i);
}

impl<V> StrMap<V> {
    #[verifier::type_invariant]
    spec fn keys_are_distinct(&self) -> bool {
        distinct_keys(self.entries@)
    }
}

impl<V: View> StrMap<V> {
    pub fn new() -> (r: Self)
        ensures
            r@ == Map::<Seq<char>, V::V>::empty(),
    {
        let r = Self { entries: Vec::new() };
        assert(r@ =~= Map::<Seq<char>, V::V>::empty());
        r
    }

    /// The entry that holds `key`, if any.
    fn find(&self, key: &str) -> (r: Option<usize>)
        ensures
            match r {
                Some(i) => i < self.entries@.len() && key_at(self.entries@, i as int) == key@,
                None => !has_key(self.entries@, key@),
            },
    {
        let mut i: usize = 0;
        while i < self.entries.len()
            invariant
                i <= self.entries@.len(),
                forall|j: int| 0 <= j < i ==> key_at(self.entries@, j) != key@,
            decreases self.entries@.len() - i,
        {
            if same_text(self.entries[i].0.as_str(), key) {
                return Some(i);
            }
            i = i + 1;
        }
        None
    }

    /// Whether some value is stored under `key`.
    pub fn contains_key(&self, key: &str) -> (r: bool)
        ensures
            r == self@.contains_key(key@),
    {
        self.find(key).is_some()
    }

    /// The value stored under `key`, if any.
    pub fn get(&self, key: &str) -> (r: Option<&V>)
        ensures
            match r {
                Some(v) => self@.contains_key(key@) && v@ == self@[key@],
                None => !self@.contains_key(key@),
            },
    {
        proof { use_type_invariant(self); }
        match self.find(key) {
            Some(i) => {
                proof { lemma_entry(self.entries@, i as int); }
                Some(&self.entries[i].1)
            },
            None => None,
        }
    }

    /// Stores `value` under `key`, in place of any earlier value.
    pub fn insert(&mut self, key: String, value: V)
        ensures
            final(self)@ == old(self)@.insert(key@, value@),
    {
        proof { use_type_invariant(&*self); }
        let ghost old_e = self.entries@;
        let ghost k = key@;
        let ghost v = value@;
        let found = self.find(key.as_str());
        let mut entries: Vec<(String, V)> = Vec::new();
        std::mem::swap(&mut entries, &mut self.entries);
        match found {
            Some(i) => {
                entries.set(i, (key, value));
            },
            None => {
                entries.push((key, value));
            },
        }
        let ghost new_e = entries@;
        proof {
            assert forall|a: int, b: int|
                0 <= a < new_e.len() && 0 <= b < new_e.len() && a != b implies #[trigger] key_at(
                new_e,
                a,
            ) != #[trigger] key_at(new_e, b) by {
                match found {
                    Some(i) => {
                        if a != i && b != i {
                            assert(key_at(old_e, a) != key_at(old_e, b));
                        } else if a == i {
                            assert(key_at(old_e, i as int) != key_at(old_e, b));
                        } else {
                            assert(key_at(old_e, a) != key_at(old_e, i as int));
                        }
                    },
                    None => {
                        if a < old_e.len() && b < old_e.len() {
                            assert(key_at(old_e, a) != key_at(old_e, b));
                        } else if a < old_e.len() {
                            assert(key_at(new_e, a) == key_at(old_e, a));
                        } else {
                            assert(key_at(new_e, b) == key_at(old_e, b));
                        }
                    },
                }
            }
        }
        self.entries = entries;
        proof {
            let m = entries_map(new_e);
            let want = entries_map(old_e).insert(k, v);
            let last: int = match found {
                Some(i) => i as int,
                None => old_e.len() as int,
            };
            assert(key_at(new_e, last) == k);
            lemma_entry(new_e, last);
            assert forall|q: Seq<char>| #[trigger] m.contains_key(q) == want.contains_key(q) by {
                if q != k {
                    if has_key(old_e, q) {
                        let j = index_of(old_e, q);
                        assert(key_at(new_e, j) == q);
                    }
                    if has_key(new_e, q) {
                        let j = index_of(new_e, q);
                        assert(j != last);
                        assert(key_at(old_e, j) == q);
                    }
                }
            }
            assert forall|q: Seq<char>| m.contains_key(q) implies #[trigger] m[q] == want[q] by {
                if q != k {
                    let j = index_of(new_e, q);
                    assert(key_at(new_e, j) == q);
                    assert(j != last);
                    assert(key_at(old_e, j) == q);
                    lemma_entry(new_e, j);
                    lemma_entry(old_e, j);
                }
            }
            assert(m =~= want);
        }
    }

    /// Takes the value stored under `key` out of the map, if any.
    pub fn remove(&mut self, key: &str) -> (r: Option<V>)
        ensures
            final(self)@ == old(self)@.remove(key@),
            match r {
                Some(v) => old(self)@.contains_key(key@) && v@ == old(self)@[key@],
                None => !old(self)@.contains_key(key@),
            },
    {
        proof { use_type_invariant(&*self); }
        let ghost old_e = self.entries@;
        let ghost k = key@;
        match self.find(key) {
            None => {
                proof {
                    assert(entries_map(old_e).remove(k) =~= entries_map(old_e));
                }
                None
            },
            Some(i) => {
                proof { lemma_entry(old_e, i as int); }
                let mut entries: Vec<(String, V)> = Vec::new();
                std::mem::swap(&mut entries, &mut self.entries);
                let (_k, v) = entries.remove(i);
                let ghost new_e = entries@;
                proof {
                    assert forall|a: int, b: int|
                        0 <= a < new_e.len() && 0 <= b < new_e.len() && a != b implies #[trigger] key_at(
                        new_e,
                        a,
                    ) != #[trigger] key_at(new_e, b) by {
                        let oa = if a < i {
                            a
                        } else {
                            a + 1
                        };
                        let ob = if b < i {
                            b
                        } else {
                            b + 1
                        };
                        assert(key_at(new_e, a) == key_at(old_e, oa));
                        assert(key_at(new_e, b) == key_at(old_e, ob));
                        assert(key_at(old_e, oa) != key_at(old_e, ob));
                    }
                }
                self.entries = entries;
                proof {
                    let m = entries_map(new_e);
                    let want = entries_map(old_e).remove(k);
                    assert forall|q: Seq<char>| #[trigger] m.contains_key(q) == want.contains_key(
                        q,
                    ) by {
                        if has_key(old_e, q) && q != k {
                            let j = index_of(old_e, q);
                            assert(key_at(old_e, j) == q);
                            assert(j != i);
                            let nj = if j < i {
                                j
                            } else {
                                j - 1
                            };
                            assert(key_at(new_e, nj) == q);
                        }
                        if has_key(new_e, q) {
                            let j = index_of(new_e, q);
                            let oj = if j < i {
                                j
                            } else {
                                j + 1
                            };
                            assert(key_at(old_e, oj) == q);
                            assert(oj != i);
                        }
                    }
                    assert forall|q: Seq<char>| m.contains_key(q) implies #[trigger] m[q]
                        == want[q] by {
                        let j = index_of(new_e, q);
                        assert(key_at(new_e, j) == q);
                        let oj = if j < i {
                            j
                        } else {
                            j + 1
                        };
                        assert(key_at(old_e, oj) == q);
                        lemma_entry(new_e, j);
                        lemma_entry(old_e, oj);
                    }
                    assert(m =~= want);
                }
                Some(v)
            },
        }
    }
}

} // verus!
