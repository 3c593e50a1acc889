use vstd::prelude::*;
use crate::bytes::{
    byte_lt, lemma_byte_lt_irreflexive, lemma_byte_lt_total, lemma_byte_lt_transitive,
};

verus! {

/// The mathematical value of an encoded item: a tree of integers, byte strings, lists and
/// mappings. A mapping is held as its entries, ordered by key.
pub enum Value {
    Integer(i64),
    ByteString(Seq<u8>),
    List(Seq<Value>),
    Mapping(Seq<(Seq<u8>, Value)>),
}

/// The entries of a mapping: pairs of a key and its value.
pub type Entries = Seq<(Seq<u8>, Value)>;

/// Whether each key is before the next one in the order of byte strings. Then no key occurs
/// twice.
pub open spec fn keys_ascend(entries: Entries) -> bool {
    forall|i: int, j: int|
        0 <= i < j < entries.len() ==> byte_lt(#[trigger] entries[i].0, #[trigger] entries[j].0)
}

/// Whether every key of `entries` is before `bound`.
pub open spec fn keys_before(entries: Entries, bound: Seq<u8>) -> bool {
    forall|i: int| 0 <= i < entries.len() ==> byte_lt(#[trigger] entries[i].0, bound)
}

/// Whether some entry has the key `key`.
pub open spec fn has_key(entries: Entries, key: Seq<u8>) -> bool {
    exists|i: int| 0 <= i < entries.len() && #[trigger] entries[i].0 == key
}

/// The value of the last entry with the key `key`.
pub open spec fn lookup(entries: Entries, key: Seq<u8>) -> Option<Value>
    decreases entries.len(),
{
    if entries.len() == 0 {
        None
    } else if entries.last().0 == key {
        Some(entries.last().1)
    } else {
        lookup(entries.drop_last(), key)
    }
}

/// The entries with `key` bound to `value`: in the place of the entry that had this key, or
/// else at the place that keeps ascending keys in order.
pub open spec fn insert_entry(entries: Entries, key: Seq<u8>, value: Value) -> Entries
    decreases entries.len(),
{
    if entries.len() == 0 || byte_lt(entries.last().0, key) {
        entries.push((key, value))
    } else if entries.last().0 == key {
        entries.drop_last().push((key, value))
    } else {
        insert_entry(entries.drop_last(), key, value).push(entries.last())
    }
}

impl Value {
    /// Whether the keys of every mapping in the tree ascend.
    pub open spec fn well_formed(self) -> bool
        decreases self,
    {
        match self {
            Value::Integer(_) => true,
            Value::ByteString(_) => true,
            Value::List(items) => forall|i: int|
                0 <= i < items.len() ==> (#[trigger] items[i]).well_formed(),
            Value::Mapping(entries) => {
                &&& keys_ascend(entries)
                &&& forall|i: int|
                    0 <= i < entries.len() ==> (#[trigger] entries[i]).1.well_formed()
            },
        }
    }

    /// Whether no item of the tree lies inside more than `depth` lists and mappings, the item's
    /// own brackets included.
    pub open spec fn within_depth(self, depth: nat) -> bool
        decreases self,
    {
        match self {
            Value::Integer(_) => true,
            Value::ByteString(_) => true,
            Value::List(items) => {
                &&& depth > 0
                &&& forall|i: int|
                    0 <= i < items.len() ==> (#[trigger] items[i]).within_depth((depth - 1) as nat)
            },
            Value::Mapping(entries) => {
                &&& depth > 0
                &&& forall|i: int|
                    0 <= i < entries.len() ==> (#[trigger] entries[i]).1.within_depth(
                        (depth - 1) as nat,
                    )
            },
        }
    }
}

/// Whether every value among `entries` is well formed.
pub open spec fn values_well_formed(entries: Entries) -> bool {
    forall|i: int| 0 <= i < entries.len() ==> (#[trigger] entries[i]).1.well_formed()
}

/// Whether every value among `entries` is within `depth`.
pub open spec fn values_within_depth(entries: Entries, depth: nat) -> bool {
    forall|i: int| 0 <= i < entries.len() ==> (#[trigger] entries[i]).1.within_depth(depth)
}

/// Inserting a key that is before `bound` keeps all keys before `bound`.
pub proof fn lemma_insert_keys_before(entries: Entries, key: Seq<u8>, value: Value, bound: Seq<u8>)
    requires
        keys_before(entries, bound),
        byte_lt(key, bound),
    ensures
        keys_before(insert_entry(entries, key, value), bound),
    decreases entries.len(),
{
    let r = insert_entry(entries, key, value);
    if entries.len() == 0 || byte_lt(entries.last().0, key) {
    } else if entries.last().0 == key {
        assert forall|i: int| 0 <= i < r.len() implies byte_lt(#[trigger] r[i].0, bound) by {
            if i < r.len() - 1 {
                assert(r[i] == entries[i]);
            }
        }
    } else {
        let front = entries.drop_last();
        assert forall|i: int| 0 <= i < front.len() implies byte_lt(
            #[trigger] front[i].0,
            bound,
        ) by {
            assert(front[i] == entries[i]);
        }
        lemma_insert_keys_before(front, key, value, bound);
        let inner = insert_entry(front, key, value);
        assert forall|i: int| 0 <= i < r.len() implies byte_lt(#[trigger] r[i].0, bound) by {
            if i < r.len() - 1 {
                assert(r[i] == inner[i]);
            } else {
                assert(r[i] == entries.last());
            }
        }
    }
}

/// Inserting keeps ascending keys ascending.
pub proof fn lemma_insert_keys_ascend(entries: Entries, key: Seq<u8>, value: Value)
    requires
        keys_ascend(entries),
    ensures
        keys_ascend(insert_entry(entries, key, value)),
    decreases entries.len(),
{
    let r = insert_entry(entries, key, value);
    if entries.len() == 0 {
    } else if byte_lt(entries.last().0, key) {
        assert forall|i: int, j: int| 0 <= i < j < r.len() implies byte_lt(
            #[trigger] r[i].0,
            #[trigger] r[j].0,
        ) by {
            if j < r.len() - 1 {
                assert(r[i] == entries[i] && r[j] == entries[j]);
            } else if i < entries.len() - 1 {
                assert(r[i] == entries[i]);
                assert(byte_lt(entries[i].0, entries[entries.len() - 1].0));
                lemma_byte_lt_transitive(entries[i].0, entries.last().0, key);
            } else {
                assert(r[i] == entries.last());
            }
        }
    } else if entries.last().0 == key {
        assert forall|i: int, j: int| 0 <= i < j < r.len() implies byte_lt(
            #[trigger] r[i].0,
            #[trigger] r[j].0,
        ) by {
            assert(r[i] == entries[i]);
            assert(r[j].0 == entries[j].0);
        }
    } else {
        let front = entries.drop_last();
        let last = entries.last();
        assert forall|i: int, j: int| 0 <= i < j < front.len() implies byte_lt(
            #[trigger] front[i].0,
            #[trigger] front[j].0,
        ) by {
            assert(front[i] == entries[i] && front[j] == entries[j]);
        }
        lemma_insert_keys_ascend(front, key, value);
        assert forall|i: int| 0 <= i < front.len() implies byte_lt(
            #[trigger] front[i].0,
            last.0,
        ) by {
            assert(front[i] == entries[i]);
            assert(byte_lt(entries[i].0, entries[entries.len() - 1].0));
        }
        lemma_byte_lt_total(last.0, key);
        lemma_insert_keys_before(front, key, value, last.0);
        let inner = insert_entry(front, key, value);
        assert forall|i: int, j: int| 0 <= i < j < r.len() implies byte_lt(
            #[trigger] r[i].0,
            #[trigger] r[j].0,
        ) by {
            assert(r[i] == inner[i]);
            if j < r.len() - 1 {
                assert(r[j] == inner[j]);
            } else {
                assert(r[j] == last);
            }
        }
    }
}

/// A key has a value exactly if some entry has the key.
pub proof fn lemma_lookup_has_key(entries: Entries, key: Seq<u8>)
    ensures
        lookup(entries, key) is Some <==> has_key(entries, key),
    decreases entries.len(),
{
    if entries.len() == 0 {
    } else if entries.last().0 == key {
        assert(entries[entries.len() - 1].0 == key);
    } else {
        let front = entries.drop_last();
        lemma_lookup_has_key(front, key);
        if has_key(front, key) {
            let i = choose|i: int| 0 <= i < front.len() && #[trigger] front[i].0 == key;
            assert(entries[i].0 == key);
        }
        if has_key(entries, key) {
            let i = choose|i: int| 0 <= i < entries.len() && #[trigger] entries[i].0 == key;
            assert(front[i].0 == key);
        }
    }
}

/// A key that is after every key of the entries is not among them.
pub proof fn lemma_keys_before_no_key(entries: Entries, key: Seq<u8>)
    requires
        keys_before(entries, key),
    ensures
        !has_key(entries, key),
        lookup(entries, key) is None,
{
    lemma_lookup_has_key(entries, key);
    if has_key(entries, key) {
        let i = choose|i: int| 0 <= i < entries.len() && #[trigger] entries[i].0 == key;
        lemma_byte_lt_irreflexive(key);
    }
}

/// Every entry after an insertion is the inserted one or was there before.
pub proof fn lemma_insert_members(entries: Entries, key: Seq<u8>, value: Value)
    ensures
        forall|i: int|
            0 <= i < insert_entry(entries, key, value).len() ==> {
                ||| #[trigger] insert_entry(entries, key, value)[i] == (key, value)
                ||| exists|j: int|
                    0 <= j < entries.len() && entries[j] == insert_entry(entries, key, value)[i]
            },
    decreases entries.len(),
{
    let r = insert_entry(entries, key, value);
    if entries.len() == 0 || byte_lt(entries.last().0, key) {
        assert forall|i: int| 0 <= i < r.len() implies {
            ||| #[trigger] r[i] == (key, value)
            ||| exists|j: int| 0 <= j < entries.len() && entries[j] == r[i]
        } by {
            if i < entries.len() {
                assert(entries[i] == r[i]);
            }
        }
    } else if entries.last().0 == key {
        assert forall|i: int| 0 <= i < r.len() implies {
            ||| #[trigger] r[i] == (key, value)
            ||| exists|j: int| 0 <= j < entries.len() && entries[j] == r[i]
        } by {
            if i < entries.len() - 1 {
                assert(entries[i] == r[i]);
            }
        }
    } else {
        let front = entries.drop_last();
        let inner = insert_entry(front, key, value);
        lemma_insert_members(front, key, value);
        assert forall|i: int| 0 <= i < r.len() implies {
            ||| #[trigger] r[i] == (key, value)
            ||| exists|j: int| 0 <= j < entries.len() && entries[j] == r[i]
        } by {
            if i < inner.len() {
                assert(r[i] == inner[i]);
                if inner[i] != (key, value) {
                    let j = choose|j: int| 0 <= j < front.len() && front[j] == inner[i];
                    assert(entries[j] == r[i]);
                }
            } else {
                assert(entries[entries.len() - 1] == r[i]);
            }
        }
    }
}

/// Inserting a well-formed value among well-formed values leaves them well formed.
pub proof fn lemma_insert_well_formed(entries: Entries, key: Seq<u8>, value: Value)
    requires
        values_well_formed(entries),
        value.well_formed(),
    ensures
        values_well_formed(insert_entry(entries, key, value)),
{
    lemma_insert_members(entries, key, value);
}

/// Inserting a value within a depth among values within that depth leaves them within it.
pub proof fn lemma_insert_within_depth(entries: Entries, key: Seq<u8>, value: Value, depth: nat)
    requires
        values_within_depth(entries, depth),
        value.within_depth(depth),
    ensures
        values_within_depth(insert_entry(entries, key, value), depth),
{
    lemma_insert_members(entries, key, value);
}

} // verus!
