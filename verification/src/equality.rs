use vstd::prelude::*;
use vstd::std_specs::cmp::PartialEqSpecImpl;
use crate::bencode::{lemma_list_view, values_of, Bencode};
use crate::bytes::bytes_equal;
use crate::dict::Dict;

verus! {

/// Whether two items have the same value: the same kind, and the same integer, the same
/// bytes, equal items in the same order, or the same keys with equal values.
pub fn same_item(a: &Bencode, b: &Bencode) -> (r: bool)
    ensures
        r == (a@ == b@),
    decreases a,
{
    match a {
        Bencode::BString(value) => {
            if let Bencode::BString(other_val) = b {
                bytes_equal(value.as_slice(), other_val.as_slice())
            } else {
                false
            }
        },
        Bencode::BList(value) => {
            if let Bencode::BList(other_val) = b {
                same_list(value, other_val)
            } else {
                false
            }
        },
        Bencode::BDict(value) => {
            if let Bencode::BDict(other_val) = b {
                same_dict(value, other_val)
            } else {
                false
            }
        },
        Bencode::BInt(value) => {
            if let Bencode::BInt(other_val) = b {
                *value == *other_val
            } else {
                false
            }
        },
    }
}

/// Whether two lists have the same length and equal items at each index.
pub fn same_list(a: &Vec<Bencode>, b: &Vec<Bencode>) -> (r: bool)
    ensures
        r == (Bencode::BList(*a)@ == Bencode::BList(*b)@),
    decreases a,
{
    proof {
        lemma_list_view(*a);
        lemma_list_view(*b);
    }
    if a.len() != b.len() {
        assert(values_of(a@).len() != values_of(b@).len());
        return false;
    }
    let mut i: usize = 0;
    while i < a.len()
        invariant
            0 <= i <= a.len(),
            a.len() == b.len(),
            forall|k: int| 0 <= k < i ==> a[k]@ == b[k]@,
        decreases a.len() - i,
    {
        if !same_item(&a[i], &b[i]) {
            proof {
                lemma_list_view(*a);
                lemma_list_view(*b);
            }
            assert(values_of(a@)[i as int] != values_of(b@)[i as int]);
            return false;
        }
        i = i + 1;
    }
    assert(values_of(a@) =~= values_of(b@));
    true
}

/// Whether two mappings have the same keys, each with equal values.
pub fn same_dict(a: &Dict, b: &Dict) -> (r: bool)
    ensures
        r == (a@ == b@),
    decreases a,
{
    if a.len() != b.len() {
        return false;
    }
    let mut i: usize = 0;
    while i < a.len()
        invariant
            0 <= i <= a@.len(),
            a@.len() == b@.len(),
            forall|k: int| 0 <= k < i ==> a@[k] == b@[k],
        decreases a@.len() - i,
    {
        if !bytes_equal(a.key_at(i).as_slice(), b.key_at(i).as_slice()) {
            assert(a@[i as int] != b@[i as int]);
            return false;
        }
        if !same_item(a.value_at(i), b.value_at(i)) {
            assert(a@[i as int] != b@[i as int]);
            return false;
        }
        i = i + 1;
    }
    assert(a@ =~= b@);
    true
}

impl PartialEq for Bencode {
    fn eq(&self, other: &Bencode) -> (r: bool) {
        same_item(self, other)
    }
}

impl PartialEqSpecImpl for Bencode {
    open spec fn obeys_eq_spec() -> bool {
        true
    }

    open spec fn eq_spec(&self, other: &Bencode) -> bool {
        self@ == other@
    }
}

impl PartialEq for Dict {
    fn eq(&self, other: &Dict) -> (r: bool) {
        same_dict(self, other)
    }
}

impl PartialEqSpecImpl for Dict {
    open spec fn obeys_eq_spec() -> bool {
        true
    }

    open spec fn eq_spec(&self, other: &Dict) -> bool {
        self@ == other@
    }
}

} // verus!
