//! A mapping from keys to lists of rows, used both for the loader's cache
//! and for the result of grouping fetched rows by their foreign key.
//!
//! The mapping is stored as a vector of entries with pairwise-distinct keys
//! and is viewed, for specification purposes, as a `Map<u128, Seq<Question>>`.

use vstd::prelude::*;
use vstd::pervasive::VecAdditionalExecFns;
use crate::record::Question;

verus! {

/// The list of rows a mapping associates with `k`, taking a key with no
/// entry to an empty list.
pub open spec fn value_for(m: Map<u128, Seq<Question>>, k: u128) -> Seq<Question> {
    if m.contains_key(k) {
        m[k]
    } else {
        Seq::<Question>::empty()
    }
}

/// A key-to-rows mapping with pairwise-distinct keys.
pub struct ValueMap {
    entries: Vec<(u128, Vec<Question>)>,
}

/// The abstract mapping an entry list denotes: later entries shadow earlier
/// ones, which is irrelevant once the keys are distinct.
spec fn entries_map(s: Seq<(u128, Vec<Question>)>) -> Map<u128, Seq<Question>>
    decreases s.len(),
{
    if s.len() == 0 {
        Map::<u128, Seq<Question>>::empty()
    } else {
        entries_map(s.drop_last()).insert(s.last().0, s.last().1@)
    }
}

/// The domain of `entries_map(s)` is exactly the set of keys occurring in `s`.
proof fn lemma_entries_map_contains(s: Seq<(u128, Vec<Question>)>, k: u128)
    ensures
        entries_map(s).contains_key(k) <==> exists|i: int| 0 <= i < s.len() && s[i].0 == k,
    decreases s.len(),
{
    if s.len() > 0 {
        lemma_entries_map_contains(s.drop_last(), k);
        if s.last().0 == k {
            assert(s[s.len() - 1].0 == k);
        } else if entries_map(s).contains_key(k) {
            let i = choose|i: int| 0 <= i < s.drop_last().len() && s.drop_last()[i].0 == k;
            assert(s[i].0 == k);
        } else if exists|i: int| 0 <= i < s.len() && s[i].0 == k {
            let i = choose|i: int| 0 <= i < s.len() && s[i].0 == k;
            assert(s.drop_last()[i].0 == k);
        }
    }
}

spec fn keys_distinct(s: Seq<(u128, Vec<Question>)>) -> bool {
    forall|i: int, j: int| 0 <= i < j < s.len() ==> s[i].0 != s[j].0
}

/// With distinct keys, the mapping sends each entry's key to that entry's rows.
proof fn lemma_entries_map_index(s: Seq<(u128, Vec<Question>)>, i: int)
    requires
        keys_distinct(s),
        0 <= i < s.len(),
    ensures
        entries_map(s).contains_key(s[i].0),
        entries_map(s)[s[i].0] == s[i].1@,
    decreases s.len(),
{
    if i == s.len() - 1 {
        assert(entries_map(s)[s.last().0] == s.last().1@);
    } else {
        assert(keys_distinct(s.drop_last()));
        lemma_entries_map_index(s.drop_last(), i);
        assert(s.drop_last()[i] == s[i]);
        assert(s[i].0 != s.last().0);
    }
}

/// Replacing entry `i` by an entry with the same key updates the mapping at
/// that key alone.
proof fn lemma_entries_map_update(s: Seq<(u128, Vec<Question>)>, i: int, e: (u128, Vec<Question>))
    requires
        keys_distinct(s),
        0 <= i < s.len(),
        e.0 == s[i].0,
    ensures
        entries_map(s.update(i, e)) == entries_map(s).insert(e.0, e.1@),
    decreases s.len(),
{
    let t = s.update(i, e);
    if i == s.len() - 1 {
        assert(t.drop_last() =~= s.drop_last());
        assert(t.last() == e);
        assert(entries_map(s).insert(e.0, e.1@)
            =~= entries_map(s.drop_last()).insert(e.0, e.1@));
    } else {
        assert(keys_distinct(s.drop_last()));
        assert(t.drop_last() =~= s.drop_last().update(i, e));
        assert(t.last() == s.last());
        lemma_entries_map_update(s.drop_last(), i, e);
        assert(entries_map(t)
            == entries_map(s.drop_last()).insert(e.0, e.1@).insert(s.last().0, s.last().1@));
        assert(e.0 != s.last().0);
        assert(entries_map(s.drop_last()).insert(e.0, e.1@).insert(s.last().0, s.last().1@)
            =~= entries_map(s.drop_last()).insert(s.last().0, s.last().1@).insert(e.0, e.1@));
    }
}

impl View for ValueMap {
    type V = Map<u128, Seq<Question>>;

    closed spec fn view(&self) -> Map<u128, Seq<Question>> {
        entries_map(self.entries@)
    }
}

impl ValueMap {
    /// The entry keys are pairwise distinct, so each key denotes one list of
    /// rows.
    pub closed spec fn wf(&self) -> bool {
        keys_distinct(self.entries@)
    }

    /// An empty mapping.
    pub fn new() -> (r: ValueMap)
        ensures
            r.wf(),
            r@ == Map::<u128, Seq<Question>>::empty(),
    {
        let r = ValueMap { entries: Vec::new() };
        proof {
            assert(r@ =~= Map::<u128, Seq<Question>>::empty());
        }
        r
    }

    /// Looks a key up: `Some` with its rows when the key has an entry,
    /// `None` when it has none.
    pub fn get(&self, key: u128) -> (r: Option<&Vec<Question>>)
        requires
            self.wf(),
        ensures
            (match r {
                Some(v) => self@.contains_key(key) && v@ == self@[key],
                None => !self@.contains_key(key),
            }),
    {
        let n = self.entries.len();
        for i in 0..n
            invariant
                n == self.entries@.len(),
                self.wf(),
                forall|j: int| 0 <= j < i ==> self.entries@[j].0 != key,
        {
            if self.entries[i].0 == key {
                proof {
                    lemma_entries_map_index(self.entries@, i as int);
                }
                return Some(&self.entries[i].1);
            }
        }
        proof {
            lemma_entries_map_contains(self.entries@, key);
        }
        None
    }

    /// Whether a key has an entry.
    pub fn contains_key(&self, key: u128) -> (r: bool)
        requires
            self.wf(),
        ensures
            r == self@.contains_key(key),
    {
        self.get(key).is_some()
    }

    /// Binds `key` to `value`, replacing any previous entry for it.
    pub fn insert(&mut self, key: u128, value: Vec<Question>)
        requires
            old(self).wf(),
        ensures
            final(self).wf(),
            final(self)@ == old(self)@.insert(key, value@),
    {
        let n = self.entries.len();
        for i in 0..n
            invariant
                n == self.entries@.len(),
                old(self).wf(),
                self.entries@ == old(self).entries@,
                forall|j: int| 0 <= j < i ==> self.entries@[j].0 != key,
        {
            if self.entries[i].0 == key {
                let ghost s0 = self.entries@;
                self.entries.set(i, (key, value));
                proof {
                    lemma_entries_map_update(s0, i as int, self.entries@[i as int]);
                    assert(forall|j: int| 0 <= j < self.entries@.len()
                        ==> self.entries@[j].0 == s0[j].0);
                }
                return;
            }
        }
        proof {
            lemma_entries_map_contains(self.entries@, key);
        }
        self.entries.push((key, value));
        proof {
            assert(self.entries@.drop_last() =~= old(self).entries@);
            assert(self.entries@.last() == (key, value));
        }
    }

    /// Appends one row to the list bound to `key`, starting a new entry with
    /// just that row when the key has none.
    pub fn push_row(&mut self, key: u128, row: Question)
        requires
            old(self).wf(),
        ensures
            final(self).wf(),
            final(self)@ == old(self)@.insert(key, value_for(old(self)@, key).push(row)),
    {
        let n = self.entries.len();
        for i in 0..n
            invariant
                n == self.entries@.len(),
                old(self).wf(),
                self.entries@ == old(self).entries@,
                forall|j: int| 0 <= j < i ==> self.entries@[j].0 != key,
        {
            if self.entries[i].0 == key {
                proof {
                    lemma_entries_map_index(self.entries@, i as int);
                }
                let ghost s0 = self.entries@;
                let mut entry = (key, Vec::<Question>::new());
                self.entries.set_and_swap(i, &mut entry);
                entry.1.push(row);
                self.entries.set_and_swap(i, &mut entry);
                proof {
                    assert(self.entries@ =~= s0.update(i as int, self.entries@[i as int]));
                    assert(self.entries@[i as int].1@ == s0[i as int].1@.push(row));
                    lemma_entries_map_update(s0, i as int, self.entries@[i as int]);
                    assert(forall|j: int| 0 <= j < self.entries@.len()
                        ==> self.entries@[j].0 == s0[j].0);
                }
                return;
            }
        }
        proof {
            lemma_entries_map_contains(self.entries@, key);
        }
        let mut rows = Vec::<Question>::new();
        rows.push(row);
        self.entries.push((key, rows));
        proof {
            assert(self.entries@.drop_last() =~= old(self).entries@);
            assert(value_for(old(self)@, key).push(row) =~= rows@);
        }
    }
}

} // verus!
