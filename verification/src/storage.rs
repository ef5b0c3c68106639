//! The shared key-to-value table.
//!
//! A [`Database`] maps UTF-8 keys to [`Value`]s; keys are unique and
//! insertion order is irrelevant. Its model is a `Map` from the key's
//! character sequence to the stored value's model: every operation is
//! specified as one atomic step on that map, so a caller that serializes
//! its calls — for example under a table-wide lock, one lock for the one
//! table — observes exactly one global sequence of these steps and never
//! a partial write.

use vstd::prelude::*;
use vstd::hash_map::StringHashMap;
use crate::value::{Value, ValueView, value_view};

verus! {

/// The in-memory key-to-value table.
pub struct Database {
    table: StringHashMap<Value>,
}

impl View for Database {
    type V = Map<Seq<char>, ValueView>;

    closed spec fn view(&self) -> Map<Seq<char>, ValueView> {
        self.table@.map_values(|v: Value| value_view(v))
    }
}

impl Database {
    /// An empty table.
    pub fn new() -> (db: Self)
        ensures
            db@ == Map::<Seq<char>, ValueView>::empty(),
    {
        let db = Database { table: StringHashMap::new() };
        proof {
            assert(db@ =~= Map::<Seq<char>, ValueView>::empty());
        }
        db
    }

    /// Returns a copy of the current value under the key, or nothing if
    /// the key is absent. No mutation.
    pub fn get(&self, key: &str) -> (r: Option<Value>)
        ensures
            match r {
                Some(v) => self@.contains_key(key@) && v@ == self@[key@],
                None => !self@.contains_key(key@),
            },
    {
        match self.table.get(key) {
            Some(v) => Some(v.duplicate()),
            None => None,
        }
    }

    /// Inserts or overwrites the value under the key, returning a copy of
    /// the prior value if one existed.
    pub fn set(&mut self, key: String, value: Value) -> (prior: Option<Value>)
        ensures
            final(self)@ == old(self)@.insert(key@, value@),
            match prior {
                Some(p) => old(self)@.contains_key(key@) && p@ == old(self)@[key@],
                None => !old(self)@.contains_key(key@),
            },
    {
        let prior = match self.table.get(key.as_str()) {
            Some(v) => Some(v.duplicate()),
            None => None,
        };
        self.table.insert(key, value);
        proof {
            assert(final(self)@ =~= old(self)@.insert(key@, value@));
        }
        prior
    }

    /// Removes the entry under the key, returning the removed value if
    /// one existed; an absent key leaves the table unchanged.
    pub fn delete(&mut self, key: &str) -> (removed: Option<Value>)
        ensures
            final(self)@ == old(self)@.remove(key@),
            match removed {
                Some(p) => old(self)@.contains_key(key@) && p@ == old(self)@[key@],
                None => !old(self)@.contains_key(key@) && final(self)@ == old(self)@,
            },
    {
        let removed = match self.table.get(key) {
            Some(v) => Some(v.duplicate()),
            None => None,
        };
        self.table.remove(key);
        proof {
            assert(final(self)@ =~= old(self)@.remove(key@));
            if !old(self)@.contains_key(key@) {
                assert(final(self)@ =~= old(self)@);
            }
        }
        removed
    }
}

/// Store atomicity: each `set` is one atomic step on the table's map, so
/// two sets of the same key, serialized in either order by the table's
/// lock, leave the table holding exactly the later one of the two values
/// — never a mixture — and a subsequent `get` of that key returns exactly
/// the value the table holds.
pub proof fn lemma_set_set_atomic(
    m: Map<Seq<char>, ValueView>,
    k: Seq<char>,
    v1: ValueView,
    v2: ValueView,
)
    ensures
        m.insert(k, v1).insert(k, v2) == m.insert(k, v2),
        m.insert(k, v2).insert(k, v1) == m.insert(k, v1),
        m.insert(k, v1).insert(k, v2)[k] == v2,
        m.insert(k, v2).insert(k, v1)[k] == v1,
{
    assert(m.insert(k, v1).insert(k, v2) =~= m.insert(k, v2));
    assert(m.insert(k, v2).insert(k, v1) =~= m.insert(k, v1));
}

/// Deleting an absent key returns nothing and leaves the table unchanged.
pub proof fn lemma_delete_absent(m: Map<Seq<char>, ValueView>, k: Seq<char>)
    requires
        !m.contains_key(k),
    ensures
        m.remove(k) == m,
{
    assert(m.remove(k) =~= m);
}

} // verus!
