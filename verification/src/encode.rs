use vstd::prelude::*;
use crate::bencode::{lemma_list_view, values_of, Bencode};
use crate::dict::Dict;
use crate::decimal::{decimal, push_decimal};
use crate::wire::{
    encode_entries, encode_items, encode_value, COLON, DICT_MARK, END_MARK, LIST_MARK,
};

verus! {

/// The encoding of the list of the items `list`.
pub fn _encode_list(list: &Vec<Bencode>) -> (out: Vec<u8>)
    ensures
        out@ == encode_value(Bencode::BList(*list)@),
    decreases list,
{
    let ghost items = values_of(list@);
    proof {
        lemma_list_view(*list);
    }
    let mut result: Vec<u8> = Vec::new();
    result.push(LIST_MARK);
    let mut i: usize = 0;
    while i < list.len()
        invariant
            0 <= i <= list.len(),
            items == values_of(list@),
            result@ == seq![LIST_MARK] + encode_items(items.take(i as int)),
        decreases list.len() - i,
    {
        let mut piece = list[i].encode();
        result.append(&mut piece);
        proof {
            assert(items.take(i + 1).drop_last() =~= items.take(i as int));
            assert(items.take(i + 1).last() == list[i as int]@);
        }
        i = i + 1;
    }
    assert(items.take(i as int) =~= items);
    result.push(END_MARK);
    result
}

/// The encoding of the mapping `dict`, its entries in the order of their keys.
pub fn _encode_dict(dict: &Dict) -> (out: Vec<u8>)
    ensures
        out@ == encode_value(Bencode::BDict(*dict)@),
    decreases dict,
{
    let mut result: Vec<u8> = Vec::new();
    result.push(DICT_MARK);
    let mut i: usize = 0;
    while i < dict.len()
        invariant
            0 <= i <= dict@.len(),
            result@ == seq![DICT_MARK] + encode_entries(dict@.take(i as int)),
        decreases dict@.len() - i,
    {
        let key = dict.key_at(i);
        push_decimal(&mut result, key.len() as u64);
        result.push(COLON);
        let mut k: usize = 0;
        while k < key.len()
            invariant
                0 <= k <= key.len(),
                0 <= i < dict@.len(),
                result@ == seq![DICT_MARK] + encode_entries(dict@.take(i as int))
                    + decimal(key.len() as nat) + seq![COLON] + key@.take(k as int),
            decreases key.len() - k,
        {
            result.push(key[k]);
            assert(key@.take(k + 1) =~= key@.take(k as int).push(key@[k as int]));
            k = k + 1;
        }
        assert(key@.take(k as int) =~= key@);
        let mut piece = dict.value_at(i).encode();
        result.append(&mut piece);
        proof {
            assert(dict@.take(i + 1).drop_last() =~= dict@.take(i as int));
            assert(dict@.take(i + 1).last() == dict@[i as int]);
            assert(result@ =~= seq![DICT_MARK] + encode_entries(dict@.take(i + 1)));
        }
        i = i + 1;
    }
    assert(dict@.take(i as int) =~= dict@);
    result.push(END_MARK);
    result
}

} // verus!
