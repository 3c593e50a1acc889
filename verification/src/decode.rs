use vstd::prelude::*;
use vstd::slice::slice_to_vec;
use crate::bencode::{lemma_list_view, values_of, Bencode};
use crate::decimal::{read_digits, read_i64, Digits};
use crate::dict::Dict;
use crate::error::{DecodeError, ErrorKind, Form};
use crate::laws::law_decoded_is_well_formed;
use crate::options::{DecodeOptions, DuplicateKeys};
use crate::value::{lemma_lookup_has_key, Value};
use crate::wire::{
    decode_bytes, decode_dict, decode_entries, decode_int, decode_items, decode_list,
    decode_string, decode_value, follows, lemma_decode_bytes_advances,
    lemma_decode_value_advances, lemma_position_is, position, Decoded, COLON, DICT_MARK,
    END_MARK, INT_MARK, LIST_MARK,
};

verus! {

/// Whether the outcome of a decoding is the one that the format prescribes: the same item and
/// the same input left over, or the same failure.
pub open spec fn agrees(got: Result<(Bencode, &[u8]), DecodeError>, due: Decoded<Value>) -> bool {
    match due {
        Ok((value, rest)) => got matches Ok((item, remainder)) && item@ == value && remainder@
            == rest,
        Err(e) => got matches Err(error) && error == e,
    }
}

fn fail<T>(kind: ErrorKind, form: Form) -> (r: Result<T, DecodeError>)
    ensures
        r matches Err(e) && e == (DecodeError { kind, form }),
{
    Err(DecodeError { kind, form })
}

/// The index of the first `byte` in `input`, or the length of `input` where it holds none.
pub fn find(input: &[u8], byte: u8) -> (at: usize)
    ensures
        at == position(input@, byte),
{
    let mut i: usize = 0;
    while i < input.len() && input[i] != byte
        invariant
            0 <= i <= input@.len(),
            forall|k: int| 0 <= k < i ==> input@[k] != byte,
        decreases input@.len() - i,
    {
        i = i + 1;
    }
    proof {
        lemma_position_is(input@, byte, i as int);
    }
    i
}

/// Decodes an integer, of which the marker `i` has been read: the decimal text up to the
/// first `e`.
pub fn _decode_int(string: &[u8]) -> (r: Result<(Bencode, &[u8]), DecodeError>)
    ensures
        agrees(r, decode_int(string@)),
{
    let end = find(string, END_MARK);
    if end >= string.len() {
        return fail(ErrorKind::TruncatedInput, Form::Integer);
    }
    let field = &string[0..end];
    assert(field@ =~= string@.take(end as int));
    match read_i64(field) {
        Some(number) => {
            let remainder = &string[end + 1..string.len()];
            assert(remainder@ =~= string@.skip(end + 1));
            Ok((Bencode::BInt(number), remainder))
        },
        None => fail(ErrorKind::MalformedLength, Form::Integer),
    }
}

/// Decodes a byte string: a decimal length up to the first `:`, then as many bytes as the
/// length says. Returns the bytes and what follows them.
pub fn _decode_string(string: &[u8]) -> (r: Result<(&[u8], &[u8]), DecodeError>)
    ensures
        match decode_bytes(string@) {
            Ok((s, rest)) => r matches Ok((word, remainder)) && word@ == s && remainder@ == rest,
            Err(e) => r matches Err(error) && error == e,
        },
{
    let delimiter = find(string, COLON);
    if delimiter >= string.len() {
        return fail(ErrorKind::TruncatedInput, Form::ByteString);
    }
    let field = &string[0..delimiter];
    assert(field@ =~= string@.take(delimiter as int));
    let word_start = delimiter + 1;
    match read_digits(field) {
        Digits::Malformed => fail(ErrorKind::MalformedLength, Form::ByteString),
        Digits::TooLarge => fail(ErrorKind::TruncatedInput, Form::ByteString),
        Digits::Number(length) => {
            if length > (string.len() - word_start) as u64 {
                return fail(ErrorKind::TruncatedInput, Form::ByteString);
            }
            let word_end = word_start + length as usize;
            let word = &string[word_start..word_end];
            let remainder = &string[word_end..string.len()];
            assert(remainder@ =~= string@.skip(word_end as int));
            Ok((word, remainder))
        },
    }
}

/// Decodes a byte string as an item.
pub fn _decode_b_string(string: &[u8]) -> (r: Result<(Bencode, &[u8]), DecodeError>)
    ensures
        agrees(r, decode_string(string@)),
{
    match _decode_string(string) {
        Ok((word, remainder)) => Ok((Bencode::BString(slice_to_vec(word)), remainder)),
        Err(e) => Err(e),
    }
}

/// Decodes a list, of which the marker `l` has been read: items up to the closing `e`.
/// `options` are the limits for the items.
pub fn _decode_list<'a>(string: &'a [u8], options: &DecodeOptions) -> (r: Result<
    (Bencode, &'a [u8]),
    DecodeError,
>)
    ensures
        agrees(r, decode_list(string@, *options)),
    decreases string@.len(), 1nat,
{
    let mut results: Vec<Bencode> = Vec::new();
    let mut substr = string;
    assert(values_of(results@) =~= Seq::<Value>::empty());
    loop
        invariant
            substr@.len() <= string@.len(),
            decode_items(string@, Seq::empty(), *options) == decode_items(
                substr@,
                values_of(results@),
                *options,
            ),
        decreases substr@.len(),
    {
        if substr.len() == 0 {
            return fail(ErrorKind::TruncatedInput, Form::List);
        }
        if substr[0] == END_MARK {
            let remainder = &substr[1..substr.len()];
            proof {
                assert(remainder@ =~= substr@.skip(1));
                lemma_list_view(results);
            }
            return Ok((Bencode::BList(results), remainder));
        }
        match Bencode::decode_with(substr, options) {
            Ok((item, rest)) => {
                proof {
                    lemma_decode_value_advances(substr@, *options);
                    assert(values_of(results@.push(item)) =~= values_of(results@).push(item@));
                }
                results.push(item);
                substr = rest;
            },
            Err(e) => {
                return Err(e);
            },
        }
    }
}

/// Decodes a mapping, of which the marker `d` has been read: pairs of a byte string and an
/// item up to the closing `e`. `options` are the limits for the values, and say what becomes
/// of a key that occurs twice.
pub fn _decode_dict<'a>(string: &'a [u8], options: &DecodeOptions) -> (r: Result<
    (Bencode, &'a [u8]),
    DecodeError,
>)
    ensures
        agrees(r, decode_dict(string@, *options)),
    decreases string@.len(), 1nat,
{
    let mut results = Dict::new();
    let mut substr = string;
    loop
        invariant
            substr@.len() <= string@.len(),
            decode_entries(string@, Seq::empty(), *options) == decode_entries(
                substr@,
                results@,
                *options,
            ),
        decreases substr@.len(),
    {
        if substr.len() == 0 {
            return fail(ErrorKind::TruncatedInput, Form::Mapping);
        }
        if substr[0] == END_MARK {
            let remainder = &substr[1..substr.len()];
            assert(remainder@ =~= substr@.skip(1));
            return Ok((Bencode::BDict(results), remainder));
        }
        if substr[0] < 48 || substr[0] > 57 {
            return fail(ErrorKind::UnexpectedMarker, Form::Mapping);
        }
        let (key, rest) = match _decode_string(substr) {
            Ok(pair) => pair,
            Err(e) => {
                return Err(e);
            },
        };
        proof {
            lemma_decode_bytes_advances(substr@);
            lemma_lookup_has_key(results@, key@);
        }
        match options.duplicate_keys {
            DuplicateKeys::Reject => {
                if results.get(key).is_some() {
                    return fail(ErrorKind::DuplicateKey, Form::Mapping);
                }
            },
            DuplicateKeys::Overwrite => {},
        }
        match Bencode::decode_with(rest, options) {
            Ok((value, after)) => {
                proof {
                    lemma_decode_value_advances(rest@, *options);
                }
                results.insert(slice_to_vec(key), value);
                substr = after;
            },
            Err(e) => {
                return Err(e);
            },
        }
    }
}

impl Bencode {
    /// Decodes the item at the front of `string`, and returns it with the input that follows
    /// it. No limit is set on the nesting, and of two values for one key the later one stays.
    pub fn decode(string: &[u8]) -> (r: Result<(Bencode, &[u8]), DecodeError>)
        ensures
            agrees(r, decode_value(string@, DecodeOptions::lenient())),
            r matches Ok((item, remainder)) ==> item.well_formed() && follows(
                remainder@,
                string@,
            ),
    {
        Bencode::decode_with(string, &DecodeOptions::default())
    }

    /// Decodes the item at the front of `string` within the limits of `options`, and returns
    /// it with the input that follows it.
    pub fn decode_with<'a>(string: &'a [u8], options: &DecodeOptions) -> (r: Result<
        (Bencode, &'a [u8]),
        DecodeError,
    >)
        ensures
            agrees(r, decode_value(string@, *options)),
            r matches Ok((item, remainder)) ==> item.well_formed() && options.admits(item@)
                && follows(remainder@, string@),
        decreases string@.len(), 0nat,
    {
        proof {
            law_decoded_is_well_formed(string@, *options);
        }
        if string.len() == 0 {
            return fail(ErrorKind::TruncatedInput, Form::Value);
        }
        let starting_char = string[0];
        let tail = &string[1..string.len()];
        assert(tail@ =~= string@.skip(1));
        if starting_char == INT_MARK {
            _decode_int(tail)
        } else if starting_char == LIST_MARK {
            if !options.nests() {
                return fail(ErrorKind::DepthExceeded, Form::List);
            }
            _decode_list(tail, &options.descend())
        } else if starting_char == DICT_MARK {
            if !options.nests() {
                return fail(ErrorKind::DepthExceeded, Form::Mapping);
            }
            _decode_dict(tail, &options.descend())
        } else if 48 <= starting_char && starting_char <= 57 {
            _decode_b_string(string)
        } else {
            fail(ErrorKind::UnexpectedMarker, Form::Value)
        }
    }
}

} // verus!
