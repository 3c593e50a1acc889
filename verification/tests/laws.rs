use bittorrent::bencode::Bencode;
use bittorrent::bencode::Bencode::{BDict, BInt, BList, BString};
use bittorrent::dict::Dict;
use bittorrent::error::{DecodeError, ErrorKind, Form};
use bittorrent::options::{DecodeOptions, DuplicateKeys};

fn text(s: &str) -> Vec<u8> {
    s.as_bytes().to_vec()
}

fn sample() -> Bencode {
    let mut files = Dict::new();
    files.insert(text("path"), BList(vec![BString(text("a")), BString(text("b.txt"))]));
    files.insert(text("length"), BInt(12345));
    let mut info = Dict::new();
    info.insert(text("pieces"), BString(vec![0, 1, 2, 0xfe, 0xff, b'e', b':']));
    info.insert(text("piece length"), BInt(16384));
    info.insert(text("files"), BList(vec![BDict(files)]));
    info.insert(text("private"), BInt(-1));
    let mut root = Dict::new();
    root.insert(text("info"), BDict(info));
    root.insert(text("announce"), BString(text("http://tracker/announce")));
    root.insert(text("empty"), BDict(Dict::new()));
    root.insert(text("list"), BList(vec![BList(vec![]), BInt(0), BString(vec![])]));
    BDict(root)
}

#[test]
fn decoding_undoes_encoding() {
    let value = sample();
    let bytes = value.encode();
    let (back, rest) = Bencode::decode(&bytes).unwrap();
    assert_eq!(back, value);
    assert_eq!(rest.len(), 0);
}

#[test]
fn decoding_undoes_encoding_of_each_kind() {
    let values = vec![
        BInt(0),
        BInt(i64::MIN),
        BInt(i64::MAX),
        BString(vec![]),
        BString(text("i1e")),
        BList(vec![]),
        BDict(Dict::new()),
        BList(vec![BInt(1), BString(text("ace"))]),
    ];
    for value in values {
        let bytes = value.encode();
        let (back, rest) = Bencode::decode(&bytes).unwrap();
        assert_eq!(back, value);
        assert_eq!(rest.len(), 0);
    }
}

#[test]
fn decoding_undoes_encoding_under_strict_options() {
    let value = sample();
    let bytes = value.encode();
    let options = DecodeOptions { max_depth: Some(5), duplicate_keys: DuplicateKeys::Reject };
    let (back, rest) = Bencode::decode_with(&bytes, &options).unwrap();
    assert_eq!(back, value);
    assert_eq!(rest.len(), 0);
}

#[test]
fn value_nested_deeper_than_the_limit_is_refused() {
    let bytes = sample().encode();
    let options = DecodeOptions { max_depth: Some(4), duplicate_keys: DuplicateKeys::Reject };
    assert_eq!(
        Bencode::decode_with(&bytes, &options).unwrap_err(),
        DecodeError { kind: ErrorKind::DepthExceeded, form: Form::List }
    );
}

#[test]
fn decoding_stops_at_the_boundary() {
    let value = sample();
    let mut bytes = value.encode();
    let tail = text("eeei1e:::9:");
    bytes.extend_from_slice(&tail);
    let (back, rest) = Bencode::decode(&bytes).unwrap();
    assert_eq!(back, value);
    assert_eq!(rest, &tail[..]);
}

#[test]
fn what_is_left_follows_what_was_read() {
    let input = text("li1ee4:spam");
    let (item, rest) = Bencode::decode(&input).unwrap();
    let consumed = item.encode();
    assert_eq!(consumed.len() + rest.len(), input.len());
    assert_eq!(rest, &input[consumed.len()..]);
}

#[test]
fn encoding_again_keeps_the_value() {
    let input = text("d1:bi2e1:ai007e1:bli-0eee");
    let first = Bencode::decode(&input).unwrap().0;
    let again = first.encode();
    assert_ne!(again, input);
    assert_eq!(again, text("d1:ai7e1:bli0eee"));
    let second = Bencode::decode(&again).unwrap().0;
    assert_eq!(second, first);
}

#[test]
fn encoding_of_decoded_canonical_input_is_the_input() {
    let input = sample().encode();
    let decoded = Bencode::decode(&input).unwrap().0;
    assert_eq!(decoded.encode(), input);
}

#[test]
fn length_is_exact_for_bytes_that_look_like_markers() {
    let content = text("e:d3:lie");
    let mut input = BString(content.clone()).encode();
    input.extend_from_slice("le".as_bytes());
    let (item, rest) = Bencode::decode(&input).unwrap();
    assert_eq!(item, BString(content));
    assert_eq!(rest, "le".as_bytes());
}
