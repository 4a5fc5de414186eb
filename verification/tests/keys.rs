//! How user keys become stored keys.

use std::collections::BTreeSet;
use std::ops::Bound;

use crossbank::key::{
    decode, decode_bytes, encode, encode_bytes, encode_range, locker_range, prefix_range, PREFIX_LEN,
};
use crossbank::Error;


#[test]
fn round_trips() {
    let e = encode(7, "candles::BTCUSDT");
    assert_eq!(decode(7, &e).unwrap(), "candles::BTCUSDT");
}

#[test]
fn an_empty_key_is_legal() {
    let e = encode(1, "");
    assert_eq!(e.len(), PREFIX_LEN);
    assert_eq!(decode(1, &e).unwrap(), "");
}

#[test]
fn decoding_under_the_wrong_locker_is_an_error() {
    let e = encode(1, "k");
    assert!(matches!(decode(2, &e), Err(Error::Corrupt(_))));
}

#[test]
fn a_truncated_key_is_an_error_not_a_panic() {
    assert!(matches!(decode(1, &[0, 0]), Err(Error::Corrupt(_))));
}

/// The reason this module exists.
#[test]
fn ordering_is_utf8_bytewise_including_above_the_bmp() {
    let keys = [
        "a",
        "z",
        "candles::BTCUSDT::0000001700",
        "\u{E000}",  // UTF-8 EE 80 80 · UTF-16 E000
        "\u{1F34E}", // UTF-8 F0 9F 8D 8E · UTF-16 D83C DF4E
        "\u{FFFD}",  // UTF-8 EF BF BD · UTF-16 FFFD
    ];

    let encoded_order: Vec<Vec<u8>> = keys
        .iter()
        .map(|k| encode(3, k))
        .collect::<BTreeSet<_>>()
        .into_iter()
        .collect();

    let expected: Vec<Vec<u8>> = keys
        .iter()
        .map(|k| k.as_bytes().to_vec())
        .collect::<BTreeSet<_>>()
        .into_iter()
        .map(|k| {
            let mut v = 3u32.to_be_bytes().to_vec();
            v.extend_from_slice(&k);
            v
        })
        .collect();

    assert_eq!(
        encoded_order, expected,
        "encoding must preserve UTF-8 byte ordering"
    );

    // And specifically: the astral-plane key sorts ABOVE U+E000, which is
    // the pair UTF-16 would have inverted.
    let apple = encode(3, "\u{1F34E}");
    let private = encode(3, "\u{E000}");
    assert!(
        apple > private,
        "U+1F34E must sort above U+E000 in UTF-8 byte order"
    );
}

/// Binary keys are the primitive; a `&str` key is just its UTF-8 bytes.
#[test]
fn a_str_key_and_its_bytes_encode_identically() {
    // The on-disk format must not change when a caller switches to the
    // byte API for the same key.
    assert_eq!(encode(9, "hello"), encode_bytes(9, b"hello"));
}

#[test]
fn non_utf8_keys_round_trip_as_bytes() {
    for key in [&[0xFFu8][..], &[0x00][..], &[0x80, 0x01][..], &[][..]] {
        let e = encode_bytes(4, key);
        assert_eq!(decode_bytes(4, &e).unwrap(), key);
    }
    // And the `&str` view refuses rather than mangling them.
    let e = encode_bytes(4, &[0xFF]);
    assert!(matches!(decode(4, &e), Err(Error::Corrupt(_))));
}

#[test]
fn binary_keys_order_bytewise() {
    let keys: [&[u8]; 4] = [&[0xFF], &[0x00], &[0x80, 0x01], b"a"];
    let mut encoded: Vec<Vec<u8>> = keys.iter().map(|k| encode_bytes(2, k)).collect();
    encoded.sort();
    let decoded: Vec<&[u8]> = encoded
        .iter()
        .map(|e| decode_bytes(2, e).unwrap())
        .collect();
    assert_eq!(
        decoded,
        vec![&[0x00][..], b"a", &[0x80, 0x01][..], &[0xFF][..]]
    );
}

#[test]
fn lockers_do_not_overlap() {
    // Locker 1's range must exclude every key of lockers 0 and 2, however
    // extreme the user key.
    let range = locker_range(1);
    assert!(range.contains(&encode(1, "")));
    assert!(range.contains(&encode(1, "\u{10FFFF}")));
    assert!(!range.contains(&encode(0, "zzzz")));
    assert!(!range.contains(&encode(2, "")));
}

#[test]
fn locker_ids_order_numerically() {
    // Big-endian is what makes this true; little-endian would interleave.
    assert!(encode(1, "z") < encode(2, "a"));
    assert!(encode(255, "z") < encode(256, "a"));
}

#[test]
fn an_unbounded_user_range_stays_inside_its_locker() {
    // The bug this prevents: an unbounded scan in locker 1 reading locker
    // 2's keys.
    let r = encode_range(1, Bound::Unbounded, Bound::Unbounded);
    assert!(r.contains(&encode(1, "")));
    assert!(r.contains(&encode(1, "~~~~")));
    assert!(!r.contains(&encode(2, "")));
    assert!(!r.contains(&encode(0, "~~~~")));
}

#[test]
fn bounded_ranges_respect_inclusivity() {
    let r = encode_range(1, Bound::Included("b"), Bound::Excluded("d"));
    assert!(!r.contains(&encode(1, "a")));
    assert!(r.contains(&encode(1, "b")));
    assert!(r.contains(&encode(1, "c")));
    assert!(!r.contains(&encode(1, "d")));
}

#[test]
fn prefix_range_stays_within_the_locker() {
    let r = prefix_range(5, "BTCUSDT::");
    assert!(r.contains(&encode(5, "BTCUSDT::0")));
    assert!(!r.contains(&encode(5, "BTCUSDU")));
    assert!(!r.contains(&encode(6, "BTCUSDT::0")));
}
