use bittorrent::bencode::Bencode;
use bittorrent::bencode::Bencode::{BDict, BInt, BList, BString};
use bittorrent::decode::{
    _decode_b_string, _decode_dict, _decode_int, _decode_list, _decode_string, find,
};
use bittorrent::dict::Dict;
use bittorrent::error::{DecodeError, ErrorKind, Form};
use bittorrent::options::{DecodeOptions, DuplicateKeys};

fn text(s: &str) -> Vec<u8> {
    s.as_bytes().to_vec()
}

fn failed(input: &str) -> DecodeError {
    Bencode::decode(input.as_bytes()).unwrap_err()
}

fn error(kind: ErrorKind, form: Form) -> DecodeError {
    DecodeError { kind, form }
}

#[test]
fn decodes_int_and_leaves_nothing() {
    let (item, rest) = Bencode::decode("i10e".as_bytes()).unwrap();
    assert_eq!(item, BInt(10));
    assert_eq!(rest, "".as_bytes());
}

#[test]
fn decodes_negative_int() {
    let (item, rest) = Bencode::decode("i-42e5:after".as_bytes()).unwrap();
    assert_eq!(item, BInt(-42));
    assert_eq!(rest, "5:after".as_bytes());
}

#[test]
fn decodes_zero_and_minus_zero() {
    assert_eq!(Bencode::decode("i0e".as_bytes()).unwrap().0, BInt(0));
    assert_eq!(Bencode::decode("i-0e".as_bytes()).unwrap().0, BInt(0));
}

#[test]
fn decodes_int_with_leading_zeros() {
    assert_eq!(Bencode::decode("i007e".as_bytes()).unwrap().0, BInt(7));
}

#[test]
fn decodes_the_ends_of_the_integer_range() {
    assert_eq!(
        Bencode::decode("i9223372036854775807e".as_bytes()).unwrap().0,
        BInt(i64::MAX)
    );
    assert_eq!(
        Bencode::decode("i-9223372036854775808e".as_bytes()).unwrap().0,
        BInt(i64::MIN)
    );
}

#[test]
fn int_out_of_range_is_malformed() {
    let expected = error(ErrorKind::MalformedLength, Form::Integer);
    assert_eq!(failed("i9223372036854775808e"), expected);
    assert_eq!(failed("i-9223372036854775809e"), expected);
    assert_eq!(failed("i18446744073709551616e"), expected);
    assert_eq!(failed("i99999999999999999999999999e"), expected);
}

#[test]
fn int_that_is_no_number_is_malformed() {
    let expected = error(ErrorKind::MalformedLength, Form::Integer);
    assert_eq!(failed("ie"), expected);
    assert_eq!(failed("i-e"), expected);
    assert_eq!(failed("i1x2e"), expected);
    assert_eq!(failed("i+5e"), expected);
    assert_eq!(failed("i--5e"), expected);
    assert_eq!(failed("i5-e"), expected);
    assert_eq!(failed("i 5e"), expected);
}

#[test]
fn int_without_end_is_truncated() {
    let expected = error(ErrorKind::TruncatedInput, Form::Integer);
    assert_eq!(failed("i10"), expected);
    assert_eq!(failed("i"), expected);
    assert_eq!(failed("i-"), expected);
}

#[test]
fn decodes_string_and_leaves_nothing() {
    let (item, rest) = Bencode::decode("9:hamburger".as_bytes()).unwrap();
    assert_eq!(item, BString(text("hamburger")));
    assert_eq!(rest, "".as_bytes());
}

#[test]
fn decodes_empty_string() {
    let (item, rest) = Bencode::decode("0:".as_bytes()).unwrap();
    assert_eq!(item, BString(Vec::new()));
    assert_eq!(rest, "".as_bytes());
}

#[test]
fn string_takes_exactly_its_length() {
    let (item, rest) = Bencode::decode("9:i1eli2eeetail".as_bytes()).unwrap();
    assert_eq!(item, BString(text("i1eli2eee")));
    assert_eq!(rest, "tail".as_bytes());
    let (item, rest) = Bencode::decode("3:1:ei5e".as_bytes()).unwrap();
    assert_eq!(item, BString(text("1:e")));
    assert_eq!(rest, "i5e".as_bytes());
}

#[test]
fn string_holds_any_bytes() {
    let input: Vec<u8> = vec![0x34, 0x3a, 0x00, 0xff, 0x80, 0x65, 0x65];
    let (item, rest) = Bencode::decode(&input).unwrap();
    assert_eq!(item, BString(vec![0x00, 0xff, 0x80, 0x65]));
    assert_eq!(rest, &[0x65u8][..]);
}

#[test]
fn string_length_with_leading_zeros() {
    let (item, rest) = Bencode::decode("003:abcd".as_bytes()).unwrap();
    assert_eq!(item, BString(text("abc")));
    assert_eq!(rest, "d".as_bytes());
}

#[test]
fn short_string_is_truncated() {
    let expected = error(ErrorKind::TruncatedInput, Form::ByteString);
    assert_eq!(failed("9:ham"), expected);
    assert_eq!(failed("1:"), expected);
}

#[test]
fn string_without_colon_is_truncated() {
    let expected = error(ErrorKind::TruncatedInput, Form::ByteString);
    assert_eq!(failed("9ham"), expected);
    assert_eq!(failed("9"), expected);
}

#[test]
fn string_with_huge_length_is_truncated() {
    let expected = error(ErrorKind::TruncatedInput, Form::ByteString);
    assert_eq!(failed("18446744073709551615:a"), expected);
    assert_eq!(failed("18446744073709551616:a"), expected);
    assert_eq!(failed("99999999999999999999999999999:a"), expected);
}

#[test]
fn string_length_that_is_no_number_is_malformed() {
    let expected = error(ErrorKind::MalformedLength, Form::ByteString);
    assert_eq!(failed("1x:a"), expected);
    assert_eq!(failed("1-:a"), expected);
    assert_eq!(failed("1e1:a"), expected);
}

#[test]
fn empty_input_is_truncated() {
    assert_eq!(failed(""), error(ErrorKind::TruncatedInput, Form::Value));
}

#[test]
fn unknown_marker_is_refused() {
    let expected = error(ErrorKind::UnexpectedMarker, Form::Value);
    assert_eq!(failed("x"), expected);
    assert_eq!(failed("e"), expected);
    assert_eq!(failed(":3abc"), expected);
    assert_eq!(failed("-1e"), expected);
    assert_eq!(failed(" i1e"), expected);
    assert_eq!(failed("I1e"), expected);
}

#[test]
fn decodes_empty_list() {
    let (item, rest) = Bencode::decode("le".as_bytes()).unwrap();
    assert_eq!(item, BList(vec![]));
    assert_eq!(rest, "".as_bytes());
}

#[test]
fn decodes_list_in_order() {
    let (item, rest) = Bencode::decode("li1e3:aceei2e".as_bytes()).unwrap();
    assert_eq!(item, BList(vec![BInt(1), BString(text("ace"))]));
    assert_eq!(rest, "i2e".as_bytes());
    let (item, _) = Bencode::decode("l3:acei1ee".as_bytes()).unwrap();
    assert_eq!(item, BList(vec![BString(text("ace")), BInt(1)]));
}

#[test]
fn decodes_nested_lists() {
    let (item, rest) = Bencode::decode("llelli7eeee".as_bytes()).unwrap();
    assert_eq!(
        item,
        BList(vec![BList(vec![]), BList(vec![BList(vec![BInt(7)])])])
    );
    assert_eq!(rest, "".as_bytes());
}

#[test]
fn list_without_end_is_truncated() {
    let expected = error(ErrorKind::TruncatedInput, Form::List);
    assert_eq!(failed("l"), expected);
    assert_eq!(failed("li1e"), expected);
    assert_eq!(failed("lli1ee"), expected);
}

#[test]
fn failure_inside_a_list_fails_the_whole() {
    assert_eq!(
        failed("li1e9:hame"),
        error(ErrorKind::TruncatedInput, Form::ByteString)
    );
    assert_eq!(
        failed("li1exe"),
        error(ErrorKind::UnexpectedMarker, Form::Value)
    );
    assert_eq!(
        failed("li1eixee"),
        error(ErrorKind::MalformedLength, Form::Integer)
    );
}

#[test]
fn decodes_empty_dict() {
    let (item, rest) = Bencode::decode("de".as_bytes()).unwrap();
    assert_eq!(item, BDict(Dict::new()));
    assert_eq!(rest, "".as_bytes());
}

#[test]
fn decodes_dict() {
    let (item, rest) = Bencode::decode("d4:testi1eerest".as_bytes()).unwrap();
    let mut dict = Dict::new();
    dict.insert(text("test"), BInt(1));
    assert_eq!(item, BDict(dict));
    assert_eq!(rest, "rest".as_bytes());
}

#[test]
fn decodes_dict_of_several_keys() {
    let (item, rest) = Bencode::decode("d1:ai1e1:b2:xy1:cleee".as_bytes()).unwrap();
    let mut dict = Dict::new();
    dict.insert(text("c"), BList(vec![]));
    dict.insert(text("a"), BInt(1));
    dict.insert(text("b"), BString(text("xy")));
    assert_eq!(item, BDict(dict));
    assert_eq!(rest, "e".as_bytes());
}

#[test]
fn decodes_dict_whatever_the_order_of_keys() {
    let sorted = Bencode::decode("d1:ai1e1:bi2ee".as_bytes()).unwrap().0;
    let unsorted = Bencode::decode("d1:bi2e1:ai1ee".as_bytes()).unwrap().0;
    assert_eq!(sorted, unsorted);
    assert_eq!(unsorted.encode(), text("d1:ai1e1:bi2ee"));
}

#[test]
fn decodes_nested_dict() {
    let (item, _) = Bencode::decode("d4:infod6:lengthi5e4:name1:xe3:urlli1eee".as_bytes()).unwrap();
    let mut info = Dict::new();
    info.insert(text("name"), BString(text("x")));
    info.insert(text("length"), BInt(5));
    let mut dict = Dict::new();
    dict.insert(text("url"), BList(vec![BInt(1)]));
    dict.insert(text("info"), BDict(info));
    assert_eq!(item, BDict(dict));
}

#[test]
fn dict_without_end_is_truncated() {
    let expected = error(ErrorKind::TruncatedInput, Form::Mapping);
    assert_eq!(failed("d"), expected);
    assert_eq!(failed("d1:ai1e"), expected);
}

#[test]
fn dict_without_value_is_truncated() {
    assert_eq!(
        failed("d1:a"),
        error(ErrorKind::TruncatedInput, Form::Value)
    );
    assert_eq!(
        failed("d1:ae"),
        error(ErrorKind::UnexpectedMarker, Form::Value)
    );
}

#[test]
fn dict_key_must_be_a_string() {
    let expected = error(ErrorKind::UnexpectedMarker, Form::Mapping);
    assert_eq!(failed("di1ei2ee"), expected);
    assert_eq!(failed("dlei2ee"), expected);
    assert_eq!(failed("ddei2ee"), expected);
    assert_eq!(failed("dxe"), expected);
}

#[test]
fn failure_in_a_key_fails_the_whole() {
    assert_eq!(
        failed("d9:keyi1ee"),
        error(ErrorKind::TruncatedInput, Form::ByteString)
    );
    assert_eq!(
        failed("d1x:ai1ee"),
        error(ErrorKind::MalformedLength, Form::ByteString)
    );
}

#[test]
fn later_value_of_a_key_overwrites_by_default() {
    let (item, rest) = Bencode::decode("d1:ai1e1:bi2e1:ai3ee".as_bytes()).unwrap();
    let mut dict = Dict::new();
    dict.insert(text("a"), BInt(3));
    dict.insert(text("b"), BInt(2));
    assert_eq!(item, BDict(dict));
    assert_eq!(rest, "".as_bytes());
    assert_eq!(item.encode(), text("d1:ai3e1:bi2ee"));
}

#[test]
fn duplicate_key_is_rejected_on_demand() {
    let options = DecodeOptions { max_depth: None, duplicate_keys: DuplicateKeys::Reject };
    assert_eq!(
        Bencode::decode_with("d1:ai1e1:bi2e1:ai3ee".as_bytes(), &options).unwrap_err(),
        error(ErrorKind::DuplicateKey, Form::Mapping)
    );
    assert_eq!(
        Bencode::decode_with("d1:ai1e1:a".as_bytes(), &options).unwrap_err(),
        error(ErrorKind::DuplicateKey, Form::Mapping)
    );
    let (item, _) = Bencode::decode_with("d1:ai1e1:bi2ee".as_bytes(), &options).unwrap();
    assert_eq!(item.encode(), text("d1:ai1e1:bi2ee"));
    let (item, _) = Bencode::decode_with("d1:ad1:ai1eee".as_bytes(), &options).unwrap();
    assert_eq!(item.encode(), text("d1:ad1:ai1eee"));
}

#[test]
fn default_options_set_no_limit() {
    let options = DecodeOptions::default();
    assert_eq!(options.max_depth, None);
    assert_eq!(options.duplicate_keys, DuplicateKeys::Overwrite);
    assert!(options.nests());
}

#[test]
fn depth_limit_is_kept() {
    let flat = DecodeOptions { max_depth: Some(0), duplicate_keys: DuplicateKeys::Overwrite };
    assert_eq!(Bencode::decode_with("i1e".as_bytes(), &flat).unwrap().0, BInt(1));
    assert_eq!(
        Bencode::decode_with("3:abc".as_bytes(), &flat).unwrap().0,
        BString(text("abc"))
    );
    assert_eq!(
        Bencode::decode_with("le".as_bytes(), &flat).unwrap_err(),
        error(ErrorKind::DepthExceeded, Form::List)
    );
    assert_eq!(
        Bencode::decode_with("de".as_bytes(), &flat).unwrap_err(),
        error(ErrorKind::DepthExceeded, Form::Mapping)
    );
    let two = DecodeOptions { max_depth: Some(2), duplicate_keys: DuplicateKeys::Overwrite };
    assert!(!flat.nests());
    assert!(two.nests());
    assert_eq!(two.descend().max_depth, Some(1));
    assert_eq!(
        Bencode::decode_with("lli1eee".as_bytes(), &two).unwrap().0,
        BList(vec![BList(vec![BInt(1)])])
    );
    assert_eq!(
        Bencode::decode_with("llleee".as_bytes(), &two).unwrap_err(),
        error(ErrorKind::DepthExceeded, Form::List)
    );
    assert_eq!(
        Bencode::decode_with("ld1:adeee".as_bytes(), &two).unwrap_err(),
        error(ErrorKind::DepthExceeded, Form::Mapping)
    );
    assert_eq!(
        Bencode::decode_with("d1:al1:xee".as_bytes(), &two).unwrap().0.encode(),
        text("d1:al1:xee")
    );
}

#[test]
fn decodes_deep_nesting_without_limit() {
    let depth = 200;
    let mut input = Vec::new();
    for _ in 0..depth {
        input.push(b'l');
    }
    for _ in 0..depth {
        input.push(b'e');
    }
    let (item, rest) = Bencode::decode(&input).unwrap();
    assert_eq!(rest.len(), 0);
    assert_eq!(item.encode(), input);
}

#[test]
fn finds_the_first_occurrence() {
    assert_eq!(find("12:ab:cd".as_bytes(), b':'), 2);
    assert_eq!(find(":".as_bytes(), b':'), 0);
    assert_eq!(find("abc".as_bytes(), b':'), 3);
    assert_eq!(find("".as_bytes(), b':'), 0);
}

#[test]
fn decode_int_reads_after_the_marker() {
    let (item, rest) = _decode_int("-12ei3e".as_bytes()).unwrap();
    assert_eq!(item, BInt(-12));
    assert_eq!(rest, "i3e".as_bytes());
    assert_eq!(
        _decode_int("12".as_bytes()).unwrap_err(),
        error(ErrorKind::TruncatedInput, Form::Integer)
    );
}

#[test]
fn decode_string_returns_the_bytes_and_the_rest() {
    let (word, rest) = _decode_string("4:testi1e".as_bytes()).unwrap();
    assert_eq!(word, "test".as_bytes());
    assert_eq!(rest, "i1e".as_bytes());
    assert_eq!(
        _decode_string("i1e".as_bytes()).unwrap_err(),
        error(ErrorKind::TruncatedInput, Form::ByteString)
    );
    assert_eq!(
        _decode_string(":abc".as_bytes()).unwrap_err(),
        error(ErrorKind::MalformedLength, Form::ByteString)
    );
}

#[test]
fn decode_b_string_returns_an_item() {
    let (item, rest) = _decode_b_string("2:hi!".as_bytes()).unwrap();
    assert_eq!(item, BString(text("hi")));
    assert_eq!(rest, "!".as_bytes());
}

#[test]
fn decode_list_reads_after_the_marker() {
    let options = DecodeOptions::default();
    let (item, rest) = _decode_list("i1ei2ee3:abc".as_bytes(), &options).unwrap();
    assert_eq!(item, BList(vec![BInt(1), BInt(2)]));
    assert_eq!(rest, "3:abc".as_bytes());
    assert_eq!(
        _decode_list("".as_bytes(), &options).unwrap_err(),
        error(ErrorKind::TruncatedInput, Form::List)
    );
}

#[test]
fn decode_dict_reads_after_the_marker() {
    let options = DecodeOptions::default();
    let (item, rest) = _decode_dict("1:k1:vele".as_bytes(), &options).unwrap();
    let mut dict = Dict::new();
    dict.insert(text("k"), BString(text("v")));
    assert_eq!(item, BDict(dict));
    assert_eq!(rest, "le".as_bytes());
    assert_eq!(
        _decode_dict("".as_bytes(), &options).unwrap_err(),
        error(ErrorKind::TruncatedInput, Form::Mapping)
    );
}
