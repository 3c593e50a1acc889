use bittorrent::bencode::Bencode;
use bittorrent::bencode::Bencode::{BDict, BInt, BList, BString};
use bittorrent::dict::Dict;

fn bytes(text: &str) -> Vec<u8> {
    text.as_bytes().to_vec()
}

#[test]
fn encodes_string() {
    assert_eq!(BString(bytes("hamburger")).encode(), bytes("9:hamburger"));
}

#[test]
fn decodes_string() {
    assert_eq!(
        Bencode::decode("9:hamburger".as_bytes()).unwrap().0,
        BString(bytes("hamburger"))
    );
}

#[test]
fn encodes_int() {
    assert_eq!(BInt(10).encode(), bytes("i10e"));
}

#[test]
fn encodes_empty_list() {
    assert_eq!(BList(Vec::new()).encode(), bytes("le"));
}

#[test]
fn encodes_list_of_one() {
    assert_eq!(BList(vec![BInt(1)]).encode(), bytes("li1ee"));
}

#[test]
fn encodes_list_of_int_and_string() {
    assert_eq!(
        BList(vec![BInt(1), BString(bytes("ace"))]).encode(),
        bytes("li1e3:acee")
    );
}

#[test]
fn encodes_list_of_string_and_int() {
    assert_eq!(
        BList(vec![BString(bytes("ace")), BInt(1)]).encode(),
        bytes("l3:acei1ee")
    );
}

#[test]
fn encodes_empty_dict() {
    assert_eq!(BDict(Dict::new()).encode(), bytes("de"));
}

#[test]
fn encodes_dict() {
    let mut dict = Dict::new();
    dict.insert(bytes("test"), BInt(1));
    assert_eq!(BDict(dict).encode(), bytes("d4:testi1ee"));
}

#[test]
fn encodes_dict_with_empty_list() {
    let mut dict = Dict::new();
    dict.insert(bytes("test"), BList(vec![]));
    assert_eq!(BDict(dict).encode(), bytes("d4:testlee"));
}
