//! The content fingerprint: MD5 digests streamed in chunks and rendered as
//! lowercase hex.

use colaz::hasher::{to_hex_lower, ContentHasher};

#[test]
fn empty_input_fingerprint() {
    let h = ContentHasher::new();
    assert_eq!(h.finalize_hex(), "d41d8cd98f00b204e9800998ecf8427e");
}

#[test]
fn known_fingerprint() {
    let mut h = ContentHasher::new();
    h.update(b"abc");
    assert_eq!(h.finalize_hex(), "900150983cd24fb0d6963f7d28e17f72");
}

#[test]
fn chunking_does_not_change_the_fingerprint() {
    let mut whole = ContentHasher::new();
    whole.update(b"The quick brown fox jumps over the lazy dog");
    let mut pieces = ContentHasher::new();
    pieces.update(b"The quick brown ");
    pieces.update(b"fox jumps over ");
    pieces.update(b"the lazy dog");
    let expected = "9e107d9d372bb6826bd81d3542a419d6";
    assert_eq!(whole.finalize_hex(), expected);
    assert_eq!(pieces.finalize_hex(), expected);
}

#[test]
fn hex_rendering_is_two_digits_per_byte() {
    assert_eq!(to_hex_lower(&vec![]), "");
    assert_eq!(to_hex_lower(&vec![0x00, 0xff, 0x1a, 0x0b]), "00ff1a0b");
}
