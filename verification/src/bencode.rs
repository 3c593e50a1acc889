use vstd::prelude::*;
use crate::decimal::{decimal, push_decimal, push_int};
use crate::dict::Dict;
use crate::encode::{_encode_dict, _encode_list};
use crate::value::Value;
use crate::wire::{encode_value, COLON, END_MARK, INT_MARK};

verus! {

/// An item of the format: an integer, a byte string, a list of items, or a mapping from byte
/// strings to items.
#[derive(Debug)]
pub enum Bencode {
    BList(Vec<Bencode>),
    BString(Vec<u8>),
    BDict(Dict),
    BInt(i64),
}

/// The value of an item.
pub open spec fn value_of(item: Bencode) -> Value
    decreases item,
{
    match item {
        Bencode::BList(list) => Value::List(
            Seq::new(
                list@.len(),
                |i: int|
                    if 0 <= i < list@.len() {
                        value_of(list@[i])
                    } else {
                        Value::Integer(0)
                    },
            ),
        ),
        Bencode::BString(bytes) => Value::ByteString(bytes@),
        Bencode::BDict(dict) => Value::Mapping(dict@),
        Bencode::BInt(n) => Value::Integer(n),
    }
}

impl View for Bencode {
    type V = Value;

    open spec fn view(&self) -> Value {
        value_of(*self)
    }
}

/// The values of the items of a list, in order.
pub open spec fn values_of(list: Seq<Bencode>) -> Seq<Value> {
    Seq::new(list.len(), |i: int| list[i]@)
}

/// The value of a list is the list of the values of its items.
pub proof fn lemma_list_view(list: Vec<Bencode>)
    ensures
        Bencode::BList(list)@ == Value::List(values_of(list@)),
{
    let v = Bencode::BList(list).view();
    assert(v is List);
    let items = v->List_0;
    assert(items.len() == list@.len());
    assert forall|i: int| 0 <= i < items.len() implies items[i] == values_of(list@)[i] by {
        assert(items[i] == list[i]@);
    }
    assert(items =~= values_of(list@));
}

impl Bencode {
    /// Whether the keys of every mapping in the item ascend. Every item that this library
    /// builds is well formed.
    pub open spec fn well_formed(&self) -> bool {
        self@.well_formed()
    }

    /// The encoding of the item.
    pub fn encode(&self) -> (out: Vec<u8>)
        ensures
            out@ == encode_value(self@),
        decreases self,
    {
        match self {
            Bencode::BString(string) => {
                let mut out: Vec<u8> = Vec::new();
                push_decimal(&mut out, string.len() as u64);
                out.push(COLON);
                let mut i: usize = 0;
                while i < string.len()
                    invariant
                        0 <= i <= string.len(),
                        out@ == decimal(string.len() as nat) + seq![COLON]
                            + string@.take(i as int),
                    decreases string.len() - i,
                {
                    out.push(string[i]);
                    assert(string@.take(i + 1) =~= string@.take(i as int).push(string@[i as int]));
                    i = i + 1;
                }
                assert(string@.take(i as int) =~= string@);
                out
            },
            Bencode::BInt(number) => {
                let mut out: Vec<u8> = Vec::new();
                out.push(INT_MARK);
                push_int(&mut out, *number);
                out.push(END_MARK);
                out
            },
            Bencode::BList(list) => _encode_list(list),
            Bencode::BDict(dict) => _encode_dict(dict),
        }
    }
}

} // verus!
