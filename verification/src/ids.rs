use vstd::prelude::*;
use std::collections::HashMap;
use crate::hashing::{hash_of, id_from_str};

verus! {

broadcast use vstd::std_specs::hash::group_hash_axioms;

/// An interning table: maps the 64-bit identifier derived from a string back
/// to the original string. Append-only; inserting the same string again
/// never changes the table.
pub struct IdStorage {
    ids: HashMap<u64, String>,
}

impl IdStorage {
    /// The table as a mathematical map from identifier to the string's characters.
    pub closed spec fn view(&self) -> Map<u64, Seq<char>> {
        self.ids@.map_values(|s: String| s@)
    }

    /// Every stored string hashes to its own key.
    pub closed spec fn wf(&self) -> bool {
        forall|id: u64| self.ids@.contains_key(id) ==> hash_of(#[trigger] self.ids@[id]@) == id
    }

    /// What interning `value` does to a table.
    pub open spec fn spec_intern(m: Map<u64, Seq<char>>, value: Seq<char>) -> Map<u64, Seq<char>> {
        if m.contains_key(hash_of(value)) {
            m
        } else {
            m.insert(hash_of(value), value)
        }
    }

    pub fn make_hash(value: &str) -> (r: u64)
        ensures
            r == hash_of(value@),
    {
        id_from_str(value)
    }

    /// Interns `value`: records (identifier, value) if the identifier is new,
    /// and returns the identifier either way.
    pub fn add(&mut self, value: &str) -> (r: u64)
        requires
            old(self).wf(),
        ensures
            final(self).wf(),
            r == hash_of(value@),
            old(self)@.contains_key(r) ==> final(self)@ == old(self)@,
            !old(self)@.contains_key(r) ==> final(self)@ == old(self)@.insert(r, value@),
            final(self)@ == IdStorage::spec_intern(old(self)@, value@),
            final(self)@.contains_key(r),
    {
        let hash = id_from_str(value);
        if !self.ids.contains_key(&hash) {
            self.ids.insert(hash, value.to_owned());
            proof {
                assert(self@ =~= old(self)@.insert(hash, value@));
            }
        } else {
            proof {
                assert(self@ =~= old(self)@);
            }
        }
        hash
    }

    /// The identifier of `value`, if `value` (or a string with the same
    /// identifier) was ever interned.
    pub fn get_by_value(&self, value: &str) -> (r: Option<u64>)
        ensures
            match r {
                Some(id) => id == hash_of(value@) && self@.contains_key(id),
                None => !self@.contains_key(hash_of(value@)),
            },
    {
        let hash = id_from_str(value);
        if self.ids.contains_key(&hash) {
            Some(hash)
        } else {
            None
        }
    }

    /// The string interned under `id`, if any.
    pub fn get_by_id(&self, id: u64) -> (r: Option<&String>)
        ensures
            match r {
                Some(s) => self@.contains_key(id) && s@ == self@[id],
                None => !self@.contains_key(id),
            },
    {
        self.ids.get(&id)
    }

    pub fn len(&self) -> (r: usize)
        ensures
            r == self@.len(),
    {
        proof {
            assert(self@.dom() =~= self.ids@.dom());
        }
        self.ids.len()
    }

    pub fn new() -> (r: IdStorage)
        ensures
            r.wf(),
            r@ == Map::<u64, Seq<char>>::empty(),
    {
        let r = IdStorage { ids: HashMap::new() };
        proof {
            assert(r@ =~= Map::<u64, Seq<char>>::empty());
        }
        r
    }
}

/// The table is finite, so `add`'s map equation also fixes its size: a new
/// identifier grows it by one, a repeat leaves it as it is.
pub proof fn lemma_table_finite(t: &IdStorage)
    ensures
        t@.dom().finite(),
{
    assert(t@.dom() =~= t.ids@.dom());
}

/// Interning is stable: once a string has been interned, interning it again
/// (any number of times) returns the same identifier — `add` always returns
/// `hash_of(value)` — and leaves the table exactly as it was, so the table's
/// size does not grow.
pub proof fn lemma_intern_stable(m: Map<u64, Seq<char>>, value: Seq<char>)
    ensures
        IdStorage::spec_intern(IdStorage::spec_intern(m, value), value) == IdStorage::spec_intern(
            m,
            value,
        ),
{
}

} // verus!
