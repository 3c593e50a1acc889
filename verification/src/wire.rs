use vstd::prelude::*;
use crate::decimal::{all_digits, decimal, digits_value, int_text, is_digit, parse_int};
use crate::error::{DecodeError, ErrorKind, Form};
use crate::options::{DecodeOptions, DuplicateKeys};
use crate::value::{has_key, insert_entry, Entries, Value};

verus! {

/// The marker `i`, which opens an integer.
pub const INT_MARK: u8 = 105;

/// The marker `l`, which opens a list.
pub const LIST_MARK: u8 = 108;

/// The marker `d`, which opens a mapping.
pub const DICT_MARK: u8 = 100;

/// The byte `e`, which closes an integer, a list or a mapping.
pub const END_MARK: u8 = 101;

/// The byte `:`, which closes the length of a byte string.
pub const COLON: u8 = 58;

/// The result of decoding one item from the front of an input: the item and the input that
/// follows it, or the reason of the failure.
pub type Decoded<T> = Result<(T, Seq<u8>), DecodeError>;

/// The failure of the given kind while reading the given form.
pub open spec fn failure(kind: ErrorKind, form: Form) -> DecodeError {
    DecodeError { kind, form }
}

/// The successful outcome with `item` decoded and `rest` left.
pub open spec fn decoded<T>(item: T, rest: Seq<u8>) -> Decoded<T> {
    Ok((item, rest))
}

/// The encoding of a byte string: its length in decimal, a colon, and its bytes.
pub open spec fn encode_bytes(s: Seq<u8>) -> Seq<u8> {
    decimal(s.len()) + seq![COLON] + s
}

/// The encoding of an integer: its decimal text between `i` and `e`.
pub open spec fn encode_int(n: i64) -> Seq<u8> {
    seq![INT_MARK] + int_text(n as int) + seq![END_MARK]
}

/// The encoding of an item.
pub open spec fn encode_value(v: Value) -> Seq<u8>
    decreases v,
{
    match v {
        Value::Integer(n) => encode_int(n),
        Value::ByteString(s) => encode_bytes(s),
        Value::List(items) => seq![LIST_MARK] + encode_items(items) + seq![END_MARK],
        Value::Mapping(entries) => seq![DICT_MARK] + encode_entries(entries) + seq![END_MARK],
    }
}

/// The encodings of the items, one after the other.
pub open spec fn encode_items(items: Seq<Value>) -> Seq<u8>
    decreases items,
{
    if items.len() == 0 {
        Seq::empty()
    } else {
        encode_items(items.drop_last()) + encode_value(items.last())
    }
}

/// The encodings of the entries, one after the other: each key as a byte string, then its value.
pub open spec fn encode_entries(entries: Entries) -> Seq<u8>
    decreases entries,
{
    if entries.len() == 0 {
        Seq::empty()
    } else {
        encode_entries(entries.drop_last()) + encode_bytes(entries.last().0) + encode_value(
            entries.last().1,
        )
    }
}

/// The index of the first `b` in `s`, or the length of `s` where it holds none.
pub open spec fn position(s: Seq<u8>, b: u8) -> nat
    decreases s.len(),
{
    if s.len() == 0 || s[0] == b {
        0
    } else {
        1 + position(s.drop_first(), b)
    }
}

/// Decodes the integer whose text begins `input`; the marker `i` has been taken off.
pub open spec fn decode_int(input: Seq<u8>) -> Decoded<Value> {
    let end = position(input, END_MARK) as int;
    if end >= input.len() {
        Err(failure(ErrorKind::TruncatedInput, Form::Integer))
    } else {
        match parse_int(input.take(end)) {
            Some(n) => if i64::MIN <= n <= i64::MAX {
                Ok((Value::Integer(n as i64), input.skip(end + 1)))
            } else {
                Err(failure(ErrorKind::MalformedLength, Form::Integer))
            },
            None => Err(failure(ErrorKind::MalformedLength, Form::Integer)),
        }
    }
}

/// Decodes the byte string at the front of `input`.
pub open spec fn decode_bytes(input: Seq<u8>) -> Decoded<Seq<u8>> {
    let colon = position(input, COLON) as int;
    let field = input.take(colon);
    let start = colon + 1;
    if colon >= input.len() {
        Err(failure(ErrorKind::TruncatedInput, Form::ByteString))
    } else if !(field.len() > 0 && all_digits(field)) {
        Err(failure(ErrorKind::MalformedLength, Form::ByteString))
    } else if start + digits_value(field) > input.len() {
        Err(failure(ErrorKind::TruncatedInput, Form::ByteString))
    } else {
        Ok(
            (
                input.subrange(start, start + digits_value(field)),
                input.skip(start + digits_value(field)),
            ),
        )
    }
}

/// Decodes the byte string at the front of `input` as an item.
pub open spec fn decode_string(input: Seq<u8>) -> Decoded<Value> {
    match decode_bytes(input) {
        Ok((s, rest)) => Ok((Value::ByteString(s), rest)),
        Err(e) => Err(e),
    }
}

/// Decodes a list, of which the marker `l` has been taken off. `options` are the limits for
/// its items.
pub open spec fn decode_list(input: Seq<u8>, options: DecodeOptions) -> Decoded<Value>
    decreases input.len(), 2nat,
{
    match decode_items(input, Seq::empty(), options) {
        Ok((items, rest)) => Ok((Value::List(items), rest)),
        Err(e) => Err(e),
    }
}

/// Decodes a mapping, of which the marker `d` has been taken off. `options` are the limits
/// for its values.
pub open spec fn decode_dict(input: Seq<u8>, options: DecodeOptions) -> Decoded<Value>
    decreases input.len(), 2nat,
{
    match decode_entries(input, Seq::empty(), options) {
        Ok((entries, rest)) => Ok((Value::Mapping(entries), rest)),
        Err(e) => Err(e),
    }
}

/// Decodes the item at the front of `input`.
pub open spec fn decode_value(input: Seq<u8>, options: DecodeOptions) -> Decoded<Value>
    decreases input.len(), 0nat,
{
    if input.len() == 0 {
        Err(failure(ErrorKind::TruncatedInput, Form::Value))
    } else if input[0] == INT_MARK {
        decode_int(input.skip(1))
    } else if input[0] == LIST_MARK {
        if !options.may_nest() {
            Err(failure(ErrorKind::DepthExceeded, Form::List))
        } else {
            decode_list(input.skip(1), options.inner())
        }
    } else if input[0] == DICT_MARK {
        if !options.may_nest() {
            Err(failure(ErrorKind::DepthExceeded, Form::Mapping))
        } else {
            decode_dict(input.skip(1), options.inner())
        }
    } else if is_digit(input[0]) {
        decode_string(input)
    } else {
        Err(failure(ErrorKind::UnexpectedMarker, Form::Value))
    }
}

/// Decodes the rest of a list, of which `done` holds the items read so far: items up to the
/// closing `e`.
pub open spec fn decode_items(input: Seq<u8>, done: Seq<Value>, options: DecodeOptions) -> Decoded<
    Seq<Value>,
>
    decreases input.len(), 1nat,
{
    if input.len() == 0 {
        Err(failure(ErrorKind::TruncatedInput, Form::List))
    } else if input[0] == END_MARK {
        Ok((done, input.skip(1)))
    } else {
        match decode_value(input, options) {
            Ok((item, rest)) => if rest.len() < input.len() {
                decode_items(rest, done.push(item), options)
            } else {
                Err(failure(ErrorKind::TruncatedInput, Form::List))
            },
            Err(e) => Err(e),
        }
    }
}

/// Decodes the rest of a mapping, of which `done` holds the entries read so far: pairs of a
/// byte string and an item up to the closing `e`.
pub open spec fn decode_entries(input: Seq<u8>, done: Entries, options: DecodeOptions) -> Decoded<
    Entries,
>
    decreases input.len(), 1nat,
{
    if input.len() == 0 {
        Err(failure(ErrorKind::TruncatedInput, Form::Mapping))
    } else if input[0] == END_MARK {
        Ok((done, input.skip(1)))
    } else if !is_digit(input[0]) {
        Err(failure(ErrorKind::UnexpectedMarker, Form::Mapping))
    } else {
        match decode_bytes(input) {
            Ok((key, rest)) => if options.duplicate_keys == DuplicateKeys::Reject && has_key(
                done,
                key,
            ) {
                Err(failure(ErrorKind::DuplicateKey, Form::Mapping))
            } else {
                match decode_value(rest, options) {
                    Ok((value, after)) => if after.len() < input.len() {
                        decode_entries(after, insert_entry(done, key, value), options)
                    } else {
                        Err(failure(ErrorKind::TruncatedInput, Form::Mapping))
                    },
                    Err(e) => Err(e),
                }
            },
            Err(e) => Err(e),
        }
    }
}

/// Whether `rest` is what is left of `input` after some of its bytes, at least one, were taken
/// from its front.
pub open spec fn follows(rest: Seq<u8>, input: Seq<u8>) -> bool {
    rest.len() < input.len() && rest == input.skip(input.len() - rest.len())
}

/// The first `b` is at an index, or the position is the length; no byte before it is `b`.
pub proof fn lemma_position(s: Seq<u8>, b: u8)
    ensures
        position(s, b) <= s.len(),
        position(s, b) < s.len() ==> s[position(s, b) as int] == b,
        forall|i: int| 0 <= i < position(s, b) ==> s[i] != b,
    decreases s.len(),
{
    if s.len() == 0 || s[0] == b {
    } else {
        let tail = s.drop_first();
        lemma_position(tail, b);
        assert forall|i: int| 0 <= i < position(s, b) implies s[i] != b by {
            if i > 0 {
                assert(s[i] == tail[i - 1]);
            }
        }
    }
}

/// The position of a byte is fixed by where it first stands.
pub proof fn lemma_position_is(s: Seq<u8>, b: u8, at: int)
    requires
        0 <= at <= s.len(),
        at < s.len() ==> s[at] == b,
        forall|i: int| 0 <= i < at ==> s[i] != b,
    ensures
        position(s, b) == at,
{
    lemma_position(s, b);
}

/// A decoded byte string leaves a shorter input: what follows the bytes it took.
pub proof fn lemma_decode_bytes_advances(input: Seq<u8>)
    ensures
        decode_bytes(input) matches Ok((s, rest)) ==> follows(rest, input),
{
    lemma_position(input, COLON);
}

/// A decoded integer leaves what follows the bytes it took.
pub proof fn lemma_decode_int_advances(input: Seq<u8>)
    ensures
        decode_int(input) matches Ok((v, rest)) ==> follows(rest, input),
{
    lemma_position(input, END_MARK);
}

/// What follows what follows an input follows the input.
pub proof fn lemma_follows_transitive(a: Seq<u8>, b: Seq<u8>, c: Seq<u8>)
    requires
        follows(a, b),
        follows(b, c) || b == c || b == c.skip(1),
        b == c.skip(1) ==> c.len() > 0,
    ensures
        follows(a, c),
{
    assert(a =~= c.skip(c.len() - a.len()));
}

/// A decoded item leaves a shorter input: what follows the bytes it took.
pub proof fn lemma_decode_value_advances(input: Seq<u8>, options: DecodeOptions)
    ensures
        decode_value(input, options) matches Ok((v, rest)) ==> follows(rest, input),
    decreases input.len(), 0nat,
{
    if input.len() > 0 {
        let tail = input.skip(1);
        if input[0] == INT_MARK {
            lemma_decode_int_advances(tail);
            if let Ok((v, rest)) = decode_int(tail) {
                lemma_follows_transitive(rest, tail, input);
            }
        } else if input[0] == LIST_MARK {
            if options.may_nest() {
                lemma_decode_items_advances(tail, Seq::empty(), options.inner());
                if let Ok((v, rest)) = decode_items(tail, Seq::empty(), options.inner()) {
                    lemma_follows_transitive(rest, tail, input);
                }
            }
        } else if input[0] == DICT_MARK {
            if options.may_nest() {
                lemma_decode_entries_advances(tail, Seq::empty(), options.inner());
                if let Ok((v, rest)) = decode_entries(tail, Seq::empty(), options.inner()) {
                    lemma_follows_transitive(rest, tail, input);
                }
            }
        } else if is_digit(input[0]) {
            lemma_decode_bytes_advances(input);
        }
    }
}

/// The decoded rest of a list leaves what follows the bytes it took.
pub proof fn lemma_decode_items_advances(input: Seq<u8>, done: Seq<Value>, options: DecodeOptions)
    ensures
        decode_items(input, done, options) matches Ok((v, rest)) ==> follows(rest, input),
    decreases input.len(), 1nat,
{
    if input.len() > 0 && input[0] != END_MARK {
        lemma_decode_value_advances(input, options);
        if let Ok((item, rest)) = decode_value(input, options) {
            lemma_decode_items_advances(rest, done.push(item), options);
            if let Ok((v, after)) = decode_items(rest, done.push(item), options) {
                lemma_follows_transitive(after, rest, input);
            }
        }
    }
}

/// The decoded rest of a mapping leaves what follows the bytes it took.
pub proof fn lemma_decode_entries_advances(input: Seq<u8>, done: Entries, options: DecodeOptions)
    ensures
        decode_entries(input, done, options) matches Ok((v, rest)) ==> follows(rest, input),
    decreases input.len(), 1nat,
{
    if input.len() > 0 && input[0] != END_MARK && is_digit(input[0]) {
        lemma_decode_bytes_advances(input);
        if let Ok((key, rest)) = decode_bytes(input) {
            lemma_decode_value_advances(rest, options);
            if let Ok((value, after)) = decode_value(rest, options) {
                lemma_follows_transitive(after, rest, input);
                let next = insert_entry(done, key, value);
                lemma_decode_entries_advances(after, next, options);
                if let Ok((v, last)) = decode_entries(after, next, options) {
                    lemma_follows_transitive(last, after, input);
                }
            }
        }
    }
}

} // verus!
