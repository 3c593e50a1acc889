use vstd::prelude::*;
use crate::bencode::{value_of, Bencode};
use crate::bytes::{
    byte_lt, bytes_equal, bytes_less, lemma_byte_lt_asymmetric, lemma_byte_lt_irreflexive,
    lemma_byte_lt_total, lemma_byte_lt_transitive,
};
use crate::value::{
    insert_entry, keys_ascend, lemma_insert_keys_ascend, lemma_keys_before_no_key, lookup,
    Entries, Value,
};

verus! {

/// A mapping from byte strings to items. Its entries are kept in the order of their keys, so
/// that two mappings with the same entries are equal and are encoded alike.
#[derive(Debug)]
pub struct Dict {
    entries: Vec<(Vec<u8>, Bencode)>,
}

impl View for Dict {
    type V = Entries;

    closed spec fn view(&self) -> Entries
        decreases self,
    {
        Seq::new(
            self.entries.len() as nat,
            |i: int|
                if 0 <= i < self.entries.len() {
                    (self.entries[i].0@, value_of(self.entries[i].1))
                } else {
                    (Seq::empty(), Value::Integer(0))
                },
        )
    }
}

impl Dict {
    /// Whether the keys ascend, here and in every mapping inside.
    pub open spec fn well_formed(&self) -> bool {
        Value::Mapping(self@).well_formed()
    }

    /// The mapping without entries.
    pub fn new() -> (dict: Dict)
        ensures
            dict@ == Entries::empty(),
    {
        let dict = Dict { entries: Vec::new() };
        assert(dict@ =~= Entries::empty());
        dict
    }

    /// The number of entries.
    pub fn len(&self) -> (n: usize)
        ensures
            n == self@.len(),
    {
        self.entries.len()
    }

    /// The key of the entry at `index`, counted in the order of the keys.
    pub fn key_at(&self, index: usize) -> (key: &Vec<u8>)
        requires
            index < self@.len(),
        ensures
            key@ == self@[index as int].0,
    {
        &self.entries[index].0
    }

    /// The value of the entry at `index`, counted in the order of the keys.
    pub fn value_at(&self, index: usize) -> (value: &Bencode)
        requires
            index < self@.len(),
        ensures
            value@ == self@[index as int].1,
            decreases_to!(self => value),
    {
        &self.entries[index].1
    }

    /// The value bound to `key`, if there is one.
    pub fn get(&self, key: &[u8]) -> (found: Option<&Bencode>)
        ensures
            match found {
                Some(value) => lookup(self@, key@) == Some(value@),
                None => lookup(self@, key@) is None,
            },
    {
        let mut i: usize = self.entries.len();
        assert(self@.take(i as int) =~= self@);
        while i > 0
            invariant
                0 <= i <= self.entries.len(),
                lookup(self@, key@) == lookup(self@.take(i as int), key@),
            decreases i,
        {
            assert(self@.take(i as int).drop_last() =~= self@.take(i - 1));
            if bytes_equal(self.entries[i - 1].0.as_slice(), key) {
                return Some(&self.entries[i - 1].1);
            }
            i = i - 1;
        }
        None
    }

    /// Binds `key` to `value`, and returns the value that `key` was bound to before.
    pub fn insert(&mut self, key: Vec<u8>, value: Bencode) -> (previous: Option<Bencode>)
        ensures
            final(self)@ == insert_entry(old(self)@, key@, value@),
            keys_ascend(old(self)@) ==> keys_ascend(final(self)@),
            match previous {
                Some(p) => lookup(old(self)@, key@) == Some(p@),
                None => keys_ascend(old(self)@) ==> lookup(old(self)@, key@) is None,
            },
    {
        let ghost before = self@;
        let mut i: usize = self.entries.len();
        proof {
            assert(before.take(i as int) =~= before);
            assert(insert_entry(before, key@, value@) + before.skip(i as int) =~= insert_entry(
                before,
                key@,
                value@,
            ));
        }
        while i > 0 && bytes_less(key.as_slice(), self.entries[i - 1].0.as_slice())
            invariant
                0 <= i <= self.entries.len(),
                self@ == before,
                insert_entry(before, key@, value@) == insert_entry(
                    before.take(i as int),
                    key@,
                    value@,
                ) + before.skip(i as int),
                lookup(before, key@) == lookup(before.take(i as int), key@),
                forall|j: int| i <= j < before.len() ==> byte_lt(key@, #[trigger] before[j].0),
            decreases i,
        {
            proof {
                let front = before.take(i as int);
                assert(front.last() == before[i - 1]);
                assert(front.drop_last() =~= before.take(i - 1));
                lemma_byte_lt_asymmetric(key@, front.last().0);
                lemma_byte_lt_irreflexive(key@);
                assert(insert_entry(front, key@, value@) == insert_entry(
                    before.take(i - 1),
                    key@,
                    value@,
                ).push(before[i - 1]));
                assert(insert_entry(before.take(i - 1), key@, value@).push(before[i - 1])
                    + before.skip(i as int) =~= insert_entry(before.take(i - 1), key@, value@)
                    + before.skip(i - 1));
            }
            i = i - 1;
        }
        proof {
            if keys_ascend(before) {
                lemma_insert_keys_ascend(before, key@, value@);
            }
            if i == 0 {
                assert(before.take(0) =~= Entries::empty());
            }
        }
        if i > 0 && bytes_equal(self.entries[i - 1].0.as_slice(), key.as_slice()) {
            let replaced = self.entries.remove(i - 1);
            self.entries.insert(i - 1, (key, value));
            proof {
                let front = before.take(i as int);
                assert(front.last() == before[i - 1]);
                lemma_byte_lt_irreflexive(key@);
                assert(final(self)@ =~= front.drop_last().push((key@, value@)) + before.skip(
                    i as int,
                ));
            }
            Some(replaced.1)
        } else {
            self.entries.insert(i, (key, value));
            proof {
                let front = before.take(i as int);
                if i > 0 {
                    assert(front.last() == before[i - 1]);
                    lemma_byte_lt_total(front.last().0, key@);
                }
                assert(final(self)@ =~= front.push((key@, value@)) + before.skip(i as int));
                if keys_ascend(before) {
                    assert forall|j: int| 0 <= j < front.len() implies byte_lt(
                        #[trigger] front[j].0,
                        key@,
                    ) by {
                        if j < i - 1 {
                            assert(byte_lt(before[j].0, before[i - 1].0));
                            lemma_byte_lt_transitive(before[j].0, before[i - 1].0, key@);
                        }
                    }
                    lemma_keys_before_no_key(front, key@);
                }
            }
            None
        }
    }
}

} // verus!
