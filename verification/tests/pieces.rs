use bittorrent::pieces::Piece;

const SHA1_OF_ABC: [u8; 20] = [
    0xa9, 0x99, 0x3e, 0x36, 0x47, 0x06, 0x81, 0x6a, 0xba, 0x3e, 0x25, 0x71, 0x78, 0x50, 0xc2,
    0x6c, 0x9c, 0xd0, 0xd8, 0x9d,
];

const SHA1_OF_NOTHING: [u8; 20] = [
    0xda, 0x39, 0xa3, 0xee, 0x5e, 0x6b, 0x4b, 0x0d, 0x32, 0x55, 0xbf, 0xef, 0x95, 0x60, 0x18,
    0x90, 0xaf, 0xd8, 0x07, 0x09,
];

#[test]
fn piece_with_its_digest_is_done() {
    let mut piece = Piece::new(SHA1_OF_ABC, 0, "abc".as_bytes().to_vec());
    assert!(piece.is_done());
    assert!(piece.is_done());
}

#[test]
fn empty_piece_with_its_digest_is_done() {
    let mut piece = Piece::new(SHA1_OF_NOTHING, 3, Vec::new());
    assert!(piece.is_done());
}

#[test]
fn piece_with_other_bytes_is_not_done() {
    let mut piece = Piece::new(SHA1_OF_ABC, 1, "abd".as_bytes().to_vec());
    assert!(!piece.is_done());
    assert!(!piece.is_done());
}

#[test]
fn piece_whose_digest_is_its_own_bytes_is_not_done() {
    let mut piece = Piece::new(SHA1_OF_ABC, 2, SHA1_OF_ABC.to_vec());
    assert!(!piece.is_done());
}

#[test]
fn settle_compares_the_digest_given() {
    let mut piece = Piece::new(SHA1_OF_ABC, 0, Vec::new());
    assert!(!piece.settle(&SHA1_OF_NOTHING));
    assert!(piece.settle(&SHA1_OF_ABC));
    assert!(piece.is_done());
}
