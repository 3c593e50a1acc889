use vstd::prelude::*;
use crate::bytes::{byte_lt, lemma_byte_lt_asymmetric};
use crate::decimal::{
    decimal, int_text, is_digit, lemma_decimal_digits, lemma_decimal_value, lemma_int_text_parses,
};
use crate::error::{ErrorKind, Form};
use crate::options::DecodeOptions;
use crate::value::{
    insert_entry, keys_ascend, keys_before, lemma_insert_keys_ascend, lemma_insert_well_formed,
    lemma_insert_within_depth, lemma_keys_before_no_key, lemma_lookup_has_key, lookup,
    values_well_formed, values_within_depth, Entries, Value,
};
use crate::wire::{
    decode_bytes, decode_entries, decode_int, decode_items, decode_value, decoded, encode_bytes,
    encode_entries, encode_int, encode_items, encode_value, failure, follows,
    lemma_decode_bytes_advances, lemma_decode_value_advances, lemma_position_is, COLON, DICT_MARK,
    END_MARK, INT_MARK, LIST_MARK,
};

verus! {

/// Whether every one of `items` is well formed.
pub open spec fn items_well_formed(items: Seq<Value>) -> bool {
    forall|i: int| 0 <= i < items.len() ==> (#[trigger] items[i]).well_formed()
}

/// Whether every one of `items` is admitted by `options`.
pub open spec fn items_admitted(items: Seq<Value>, options: DecodeOptions) -> bool {
    forall|i: int| 0 <= i < items.len() ==> options.admits(#[trigger] items[i])
}

/// Whether every value among `entries` is admitted by `options`.
pub open spec fn values_admitted(entries: Entries, options: DecodeOptions) -> bool {
    forall|i: int| 0 <= i < entries.len() ==> options.admits((#[trigger] entries[i]).1)
}

/// Whatever is decoded is well formed and nested no deeper than the options allow, and what is
/// left of the input follows the bytes that were read.
pub proof fn law_decoded_is_well_formed(input: Seq<u8>, options: DecodeOptions)
    ensures
        decode_value(input, options) matches Ok((v, rest)) ==> v.well_formed() && options.admits(v)
            && follows(rest, input),
    decreases input.len(), 0nat,
{
    lemma_decode_value_advances(input, options);
    if input.len() > 0 && options.may_nest() {
        let tail = input.skip(1);
        if input[0] == LIST_MARK {
            lemma_decoded_items(tail, Seq::empty(), options.inner());
        } else if input[0] == DICT_MARK {
            lemma_decoded_entries(tail, Seq::empty(), options.inner());
        }
    }
}

proof fn lemma_decoded_items(input: Seq<u8>, done: Seq<Value>, options: DecodeOptions)
    requires
        items_well_formed(done),
        items_admitted(done, options),
    ensures
        decode_items(input, done, options) matches Ok((items, rest)) ==> items_well_formed(items)
            && items_admitted(items, options),
    decreases input.len(), 1nat,
{
    if input.len() > 0 && input[0] != END_MARK {
        law_decoded_is_well_formed(input, options);
        if let Ok((item, rest)) = decode_value(input, options) {
            let next = done.push(item);
            assert forall|i: int| 0 <= i < next.len() implies (#[trigger] next[i]).well_formed()
                && options.admits(next[i]) by {
                if i < done.len() {
                    assert(next[i] == done[i]);
                }
            }
            lemma_decoded_items(rest, next, options);
        }
    }
}

proof fn lemma_decoded_entries(input: Seq<u8>, done: Entries, options: DecodeOptions)
    requires
        keys_ascend(done),
        values_well_formed(done),
        values_admitted(done, options),
    ensures
        decode_entries(input, done, options) matches Ok((entries, rest)) ==> keys_ascend(entries)
            && values_well_formed(entries) && values_admitted(entries, options),
    decreases input.len(), 1nat,
{
    if input.len() > 0 && input[0] != END_MARK && is_digit(input[0]) {
        lemma_decode_bytes_advances(input);
        if let Ok((key, rest)) = decode_bytes(input) {
            law_decoded_is_well_formed(rest, options);
            if let Ok((value, after)) = decode_value(rest, options) {
                let next = insert_entry(done, key, value);
                lemma_insert_keys_ascend(done, key, value);
                lemma_insert_well_formed(done, key, value);
                match options.max_depth {
                    Some(d) => {
                        assert(values_within_depth(done, d as nat)) by {
                            assert forall|i: int| 0 <= i < done.len() implies (
                            #[trigger] done[i]).1.within_depth(d as nat) by {
                                assert(options.admits(done[i].1));
                            }
                        }
                        lemma_insert_within_depth(done, key, value, d as nat);
                        assert forall|i: int| 0 <= i < next.len() implies options.admits(
                            (#[trigger] next[i]).1,
                        ) by {
                            assert(next[i].1.within_depth(d as nat));
                        }
                    },
                    None => {},
                }
                lemma_decoded_entries(after, next, options);
            }
        }
    }
}

/// The encoding of a list of items is the encoding of the first, then that of the others.
proof fn lemma_encode_items_front(items: Seq<Value>)
    requires
        items.len() > 0,
    ensures
        encode_items(items) == encode_value(items[0]) + encode_items(items.drop_first()),
    decreases items.len(),
{
    if items.len() == 1 {
        assert(items.drop_last() =~= Seq::<Value>::empty());
        assert(items.drop_first() =~= Seq::<Value>::empty());
        assert(encode_items(items) =~= encode_value(items[0]) + encode_items(items.drop_first()));
    } else {
        lemma_encode_items_front(items.drop_last());
        assert(items.drop_last().drop_first() =~= items.drop_first().drop_last());
        assert(items.drop_last()[0] == items[0]);
        assert(items.drop_first().last() == items.last());
        assert(encode_items(items) =~= encode_value(items[0]) + encode_items(items.drop_first()));
    }
}

/// The encoding of entries is the encoding of the first entry, then that of the others.
proof fn lemma_encode_entries_front(entries: Entries)
    requires
        entries.len() > 0,
    ensures
        encode_entries(entries) == encode_bytes(entries[0].0) + encode_value(entries[0].1)
            + encode_entries(entries.drop_first()),
    decreases entries.len(),
{
    if entries.len() == 1 {
        assert(entries.drop_last() =~= Entries::empty());
        assert(entries.drop_first() =~= Entries::empty());
        assert(encode_entries(entries) =~= encode_bytes(entries[0].0) + encode_value(entries[0].1)
            + encode_entries(entries.drop_first()));
    } else {
        lemma_encode_entries_front(entries.drop_last());
        assert(entries.drop_last().drop_first() =~= entries.drop_first().drop_last());
        assert(entries.drop_last()[0] == entries[0]);
        assert(entries.drop_first().last() == entries.last());
        assert(encode_entries(entries) =~= encode_bytes(entries[0].0) + encode_value(entries[0].1)
            + encode_entries(entries.drop_first()));
    }
}

/// An encoding is not empty and begins with a marker or a digit, never with the closing `e`.
pub proof fn lemma_encoding_begins(v: Value)
    ensures
        encode_value(v).len() > 0,
        encode_value(v)[0] != END_MARK,
        match v {
            Value::Integer(_) => encode_value(v)[0] == INT_MARK,
            Value::ByteString(_) => is_digit(encode_value(v)[0]),
            Value::List(_) => encode_value(v)[0] == LIST_MARK,
            Value::Mapping(_) => encode_value(v)[0] == DICT_MARK,
        },
{
    match v {
        Value::ByteString(s) => {
            lemma_decimal_digits(s.len());
            assert(encode_value(v)[0] == decimal(s.len())[0]);
        },
        _ => {},
    }
}

/// A byte string is read back from its encoding, whatever follows it.
proof fn lemma_bytes_round_trip(s: Seq<u8>, tail: Seq<u8>)
    ensures
        decode_bytes(encode_bytes(s) + tail) == decoded(s, tail),
        is_digit((encode_bytes(s) + tail)[0]),
{
    let field = decimal(s.len());
    let input = encode_bytes(s) + tail;
    lemma_decimal_digits(s.len());
    lemma_decimal_value(s.len());
    assert forall|i: int| 0 <= i < field.len() implies input[i] != COLON by {
        assert(input[i] == field[i]);
        assert(is_digit(field[i]));
    }
    assert(input[field.len() as int] == COLON);
    assert(input[0] == field[0]);
    lemma_position_is(input, COLON, field.len() as int);
    assert(input.take(field.len() as int) =~= field);
    let start = field.len() + 1;
    assert(input.subrange(start as int, (start + s.len()) as int) =~= s);
    assert(input.skip((start + s.len()) as int) =~= tail);
}

/// An integer is read back from its encoding without the marker, whatever follows it.
proof fn lemma_int_round_trip(n: i64, tail: Seq<u8>)
    ensures
        decode_int(encode_int(n).skip(1) + tail) == decoded(Value::Integer(n), tail),
{
    let text = int_text(n as int);
    let input = encode_int(n).skip(1) + tail;
    assert(input =~= text + seq![END_MARK] + tail);
    if n < 0 {
        lemma_decimal_digits((-n) as nat);
    } else {
        lemma_decimal_digits(n as nat);
    }
    assert forall|i: int| 0 <= i < text.len() implies input[i] != END_MARK by {
        assert(input[i] == text[i]);
        if n < 0 {
            if i > 0 {
                assert(text[i] == decimal((-n) as nat)[i - 1]);
                assert(is_digit(decimal((-n) as nat)[i - 1]));
            }
        } else {
            assert(is_digit(decimal(n as nat)[i]));
        }
    }
    assert(input[text.len() as int] == END_MARK);
    lemma_position_is(input, END_MARK, text.len() as int);
    assert(input.take(text.len() as int) =~= text);
    lemma_int_text_parses(n as int);
    assert(input.skip((text.len() + 1) as int) =~= tail);
}

/// Decoding stops at the boundary of the item. The encoding of a well-formed value that the
/// options admit, followed by any bytes, decodes to that value and leaves those bytes.
pub proof fn law_decode_stops_at_boundary(v: Value, tail: Seq<u8>, options: DecodeOptions)
    requires
        v.well_formed(),
        options.admits(v),
    ensures
        decode_value(encode_value(v) + tail, options) == decoded(v, tail),
    decreases v, 0nat,
{
    let input = encode_value(v) + tail;
    lemma_encoding_begins(v);
    assert(input[0] == encode_value(v)[0]);
    match v {
        Value::Integer(n) => {
            lemma_int_round_trip(n, tail);
            assert(input.skip(1) =~= encode_int(n).skip(1) + tail);
        },
        Value::ByteString(s) => {
            lemma_bytes_round_trip(s, tail);
        },
        Value::List(items) => {
            assert(input.skip(1) =~= encode_items(items) + seq![END_MARK] + tail);
            assert forall|i: int| 0 <= i < items.len() implies options.inner().admits(
                #[trigger] items[i],
            ) by {}
            lemma_items_round_trip(items, Seq::empty(), tail, options.inner());
            assert(Seq::<Value>::empty() + items =~= items);
        },
        Value::Mapping(entries) => {
            assert(input.skip(1) =~= encode_entries(entries) + seq![END_MARK] + tail);
            assert forall|i: int| 0 <= i < entries.len() implies options.inner().admits(
                (#[trigger] entries[i]).1,
            ) by {}
            assert(Entries::empty() + entries =~= entries);
            lemma_entries_round_trip(entries, Seq::empty(), tail, options.inner());
        },
    }
}

proof fn lemma_items_round_trip(
    items: Seq<Value>,
    done: Seq<Value>,
    tail: Seq<u8>,
    options: DecodeOptions,
)
    requires
        items_well_formed(items),
        items_admitted(items, options),
    ensures
        decode_items(encode_items(items) + seq![END_MARK] + tail, done, options) == decoded(
            done + items,
            tail,
        ),
    decreases items, 1nat,
{
    let input = encode_items(items) + seq![END_MARK] + tail;
    if items.len() == 0 {
        assert(input =~= seq![END_MARK] + tail);
        assert(input.skip(1) =~= tail);
        assert(done + items =~= done);
    } else {
        let first = items[0];
        let others = items.drop_first();
        lemma_encode_items_front(items);
        lemma_encoding_begins(first);
        let after = encode_items(others) + seq![END_MARK] + tail;
        assert(input =~= encode_value(first) + after);
        assert(input[0] == encode_value(first)[0]);
        law_decode_stops_at_boundary(first, after, options);
        assert forall|i: int| 0 <= i < others.len() implies (#[trigger] others[i]).well_formed()
            && options.admits(others[i]) by {
            assert(others[i] == items[i + 1]);
        }
        lemma_items_round_trip(others, done.push(first), tail, options);
        assert(done.push(first) + others =~= done + items);
    }
}

proof fn lemma_entries_round_trip(
    entries: Entries,
    done: Entries,
    tail: Seq<u8>,
    options: DecodeOptions,
)
    requires
        keys_ascend(done + entries),
        values_well_formed(entries),
        values_admitted(entries, options),
    ensures
        decode_entries(encode_entries(entries) + seq![END_MARK] + tail, done, options) == decoded(
            done + entries,
            tail,
        ),
    decreases entries, 1nat,
{
    let input = encode_entries(entries) + seq![END_MARK] + tail;
    if entries.len() == 0 {
        assert(input =~= seq![END_MARK] + tail);
        assert(input.skip(1) =~= tail);
        assert(done + entries =~= done);
    } else {
        let key = entries[0].0;
        let value = entries[0].1;
        let others = entries.drop_first();
        let all = done + entries;
        lemma_encode_entries_front(entries);
        let after = encode_entries(others) + seq![END_MARK] + tail;
        let middle = encode_value(value) + after;
        assert(input =~= encode_bytes(key) + middle);
        lemma_bytes_round_trip(key, middle);
        assert(input[0] != END_MARK);
        assert forall|i: int| 0 <= i < done.len() implies byte_lt(#[trigger] done[i].0, key) by {
            assert(all[i] == done[i]);
            assert(all[done.len() as int] == entries[0]);
        }
        lemma_keys_before_no_key(done, key);
        law_decode_stops_at_boundary(value, after, options);
        let next = done.push((key, value));
        assert(insert_entry(done, key, value) == next) by {
            if done.len() > 0 {
                assert(byte_lt(done[done.len() - 1].0, key));
            }
        }
        assert(next + others =~= all);
        assert forall|i: int| 0 <= i < others.len() implies (#[trigger] others[i]).1.well_formed()
            && options.admits(others[i].1) by {
            assert(others[i] == entries[i + 1]);
        }
        lemma_decode_bytes_advances(input);
        lemma_decode_value_advances(middle, options);
        lemma_entries_round_trip(others, next, tail, options);
    }
}

/// Decoding undoes encoding. The encoding of a well-formed value that the options admit
/// decodes to that value, with no input left.
pub proof fn law_round_trip(v: Value, options: DecodeOptions)
    requires
        v.well_formed(),
        options.admits(v),
    ensures
        decode_value(encode_value(v), options) == decoded(v, Seq::<u8>::empty()),
{
    law_decode_stops_at_boundary(v, Seq::empty(), options);
    assert(encode_value(v) + Seq::<u8>::empty() =~= encode_value(v));
}

/// Encoding again what was decoded gives the same value when it is decoded again, though the
/// bytes may differ from the first input.
pub proof fn law_reencoding_keeps_value(input: Seq<u8>, options: DecodeOptions)
    ensures
        decode_value(input, options) matches Ok((v, rest)) ==> decode_value(
            encode_value(v),
            options,
        ) == decoded(v, Seq::<u8>::empty()),
{
    law_decoded_is_well_formed(input, options);
    if let Ok((v, rest)) = decode_value(input, options) {
        law_round_trip(v, options);
    }
}

/// The length of a byte string is exact. Whatever the bytes `s` are, and whatever follows
/// them, the decimal length of `s`, a colon and `s` decode to `s` and leave what follows:
/// no byte of the content is read as a marker.
pub proof fn law_length_is_exact(s: Seq<u8>, tail: Seq<u8>, options: DecodeOptions)
    ensures
        decode_value(encode_bytes(s) + tail, options) == decoded(Value::ByteString(s), tail),
{
    law_decode_stops_at_boundary(Value::ByteString(s), tail, options);
}

/// A byte string that is cut short is refused. Where fewer bytes follow the colon than the
/// length says, the outcome is a truncated input, never a shorter byte string.
pub proof fn law_short_string_is_truncated(length: nat, content: Seq<u8>, options: DecodeOptions)
    requires
        content.len() < length,
    ensures
        decode_value(decimal(length) + seq![COLON] + content, options) == Err::<
            (Value, Seq<u8>),
            _,
        >(failure(ErrorKind::TruncatedInput, Form::ByteString)),
{
    let field = decimal(length);
    let input = field + seq![COLON] + content;
    lemma_decimal_digits(length);
    lemma_decimal_value(length);
    assert forall|i: int| 0 <= i < field.len() implies input[i] != COLON by {
        assert(input[i] == field[i]);
        assert(is_digit(field[i]));
    }
    assert(input[field.len() as int] == COLON);
    assert(input[0] == field[0]);
    lemma_position_is(input, COLON, field.len() as int);
    assert(input.take(field.len() as int) =~= field);
}

/// Encoding keeps the order of a list. The items of two lists joined are encoded as the items
/// of the first, then those of the second.
pub proof fn law_encoding_keeps_order(first: Seq<Value>, second: Seq<Value>)
    ensures
        encode_items(first + second) == encode_items(first) + encode_items(second),
    decreases second.len(),
{
    if second.len() == 0 {
        assert(first + second =~= first);
        assert(encode_items(first) + encode_items(second) =~= encode_items(first));
    } else {
        law_encoding_keeps_order(first, second.drop_last());
        assert((first + second).drop_last() =~= first + second.drop_last());
        assert((first + second).last() == second.last());
        assert(encode_items(first + second) =~= encode_items(first) + encode_items(second));
    }
}

/// Decoding keeps the order of a list. The items that are read come after those read before,
/// in the order in which they stand in the input.
pub proof fn law_decoding_keeps_order(input: Seq<u8>, done: Seq<Value>, options: DecodeOptions)
    ensures
        decode_items(input, done, options) == match decode_items(input, Seq::empty(), options) {
            Ok((items, rest)) => decoded(done + items, rest),
            Err(e) => Err(e),
        },
    decreases input.len(),
{
    let none = Seq::<Value>::empty();
    if input.len() == 0 {
    } else if input[0] == END_MARK {
        assert(done + none =~= done);
    } else {
        lemma_decode_value_advances(input, options);
        if let Ok((item, rest)) = decode_value(input, options) {
            law_decoding_keeps_order(rest, done.push(item), options);
            law_decoding_keeps_order(rest, none.push(item), options);
            if let Ok((items, after)) = decode_items(rest, none, options) {
                assert(done.push(item) + items =~= done + (none.push(item) + items));
            }
        }
    }
}

/// Inserting binds one key and leaves the others. After `key` was bound to `value`, `key` has
/// the value `value` and every other key has the value that it had.
pub proof fn law_insert_binds(entries: Entries, key: Seq<u8>, value: Value, other: Seq<u8>)
    ensures
        lookup(insert_entry(entries, key, value), other) == if other == key {
            Some(value)
        } else {
            lookup(entries, other)
        },
    decreases entries.len(),
{
    let r = insert_entry(entries, key, value);
    if entries.len() == 0 || byte_lt(entries.last().0, key) {
        assert(r.drop_last() =~= entries);
    } else if entries.last().0 == key {
        assert(r.drop_last() =~= entries.drop_last());
    } else {
        law_insert_binds(entries.drop_last(), key, value, other);
        assert(r.drop_last() =~= insert_entry(entries.drop_last(), key, value));
    }
}

/// Mappings are equal exactly if they bind the same keys to the same values. For entries
/// with ascending keys, being the same sequence and giving every key the same value are one
/// thing.
pub proof fn law_equal_mappings(a: Entries, b: Entries)
    requires
        keys_ascend(a),
        keys_ascend(b),
    ensures
        a == b <==> forall|key: Seq<u8>| lookup(a, key) == lookup(b, key),
    decreases a.len(),
{
    if forall|key: Seq<u8>| lookup(a, key) == lookup(b, key) {
        if a.len() == 0 {
            if b.len() > 0 {
                assert(lookup(b, b.last().0) is Some);
                assert(lookup(a, b.last().0) is None);
            }
            assert(a =~= b);
        } else {
            let ka = a.last().0;
            assert(lookup(a, ka) == Some(a.last().1));
            assert(lookup(b, ka) is Some);
            assert(b.len() > 0);
            let kb = b.last().0;
            assert(lookup(b, kb) == Some(b.last().1));
            assert(lookup(a, kb) is Some);
            lemma_lookup_has_key(b, ka);
            lemma_lookup_has_key(a, kb);
            let i = choose|i: int| 0 <= i < b.len() && #[trigger] b[i].0 == ka;
            let j = choose|j: int| 0 <= j < a.len() && #[trigger] a[j].0 == kb;
            if ka != kb {
                assert(byte_lt(b[i].0, b[b.len() - 1].0));
                assert(byte_lt(a[j].0, a[a.len() - 1].0));
                lemma_byte_lt_asymmetric(ka, kb);
            }
            let fa = a.drop_last();
            let fb = b.drop_last();
            assert(keys_before(fa, ka)) by {
                assert forall|k: int| 0 <= k < fa.len() implies byte_lt(#[trigger] fa[k].0, ka) by {
                    assert(byte_lt(a[k].0, a[a.len() - 1].0));
                }
            }
            assert(keys_before(fb, kb)) by {
                assert forall|k: int| 0 <= k < fb.len() implies byte_lt(#[trigger] fb[k].0, kb) by {
                    assert(byte_lt(b[k].0, b[b.len() - 1].0));
                }
            }
            lemma_keys_before_no_key(fa, ka);
            lemma_keys_before_no_key(fb, kb);
            assert forall|key: Seq<u8>| lookup(fa, key) == lookup(fb, key) by {
                if key != ka {
                    assert(lookup(a, key) == lookup(fa, key));
                    assert(lookup(b, key) == lookup(fb, key));
                }
            }
            assert(keys_ascend(fa)) by {
                assert forall|x: int, y: int| 0 <= x < y < fa.len() implies byte_lt(
                    #[trigger] fa[x].0,
                    #[trigger] fa[y].0,
                ) by {
                    assert(byte_lt(a[x].0, a[y].0));
                }
            }
            assert(keys_ascend(fb)) by {
                assert forall|x: int, y: int| 0 <= x < y < fb.len() implies byte_lt(
                    #[trigger] fb[x].0,
                    #[trigger] fb[y].0,
                ) by {
                    assert(byte_lt(b[x].0, b[y].0));
                }
            }
            law_equal_mappings(fa, fb);
            assert(a =~= fa.push(a.last()));
            assert(b =~= fb.push(b.last()));
        }
    }
}

} // verus!
