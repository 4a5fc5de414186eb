//! Values of a caller's own types.

use crossbank::codec::value::{decode, encode, type_tag, Value};
use crossbank::codec::default_chain;
use crossbank::{Error, Result};

#[derive(Debug, PartialEq)]
struct Settings {
    theme: String,
    scale: f64,
    enabled: bool,
}

impl Value for Settings {
    fn tag() -> String {
        "values::Settings".to_string()
    }
    fn to_payload(&self) -> Result<Vec<u8>> {
        postcard::to_allocvec(&(&self.theme, self.scale, self.enabled))
            .map_err(|e| Error::Filter(e.to_string()))
    }
    fn from_payload(payload: &[u8]) -> Result<Self> {
        let (theme, scale, enabled) =
            postcard::from_bytes(payload).map_err(|e| Error::Corrupt(e.to_string()))?;
        Ok(Settings {
            theme,
            scale,
            enabled,
        })
    }
}

#[derive(Debug, PartialEq)]
struct Other {
    a: u64,
    b: u64,
}

impl Value for Other {
    fn tag() -> String {
        "values::Other".to_string()
    }
    fn to_payload(&self) -> Result<Vec<u8>> {
        postcard::to_allocvec(&(self.a, self.b)).map_err(|e| Error::Filter(e.to_string()))
    }
    fn from_payload(payload: &[u8]) -> Result<Self> {
        let (a, b) = postcard::from_bytes(payload).map_err(|e| Error::Corrupt(e.to_string()))?;
        Ok(Other { a, b })
    }
}

#[derive(Debug, PartialEq)]
struct Pair(u64, u64);

impl Value for Pair {
    fn tag() -> String {
        "values::Pair".to_string()
    }
    fn to_payload(&self) -> Result<Vec<u8>> {
        postcard::to_allocvec(&(self.0, self.1)).map_err(|e| Error::Filter(e.to_string()))
    }
    fn from_payload(payload: &[u8]) -> Result<Self> {
        let (a, b) = postcard::from_bytes(payload).map_err(|e| Error::Corrupt(e.to_string()))?;
        Ok(Pair(a, b))
    }
}

#[test]
fn typed_values_round_trip() {
    let chain = default_chain();
    let value = Settings {
        theme: "dark".into(),
        scale: 1.25,
        enabled: true,
    };

    let stored = encode(&value, &chain).unwrap();
    let back: Settings = decode(&stored, &chain).unwrap();
    assert_eq!(back, value);
}

#[test]
fn raw_bytes_work_as_a_value_type() {
    // Vec<u8> must be usable as T, so a caller who already has bytes is not
    // forced to invent a wrapper type.
    let chain = default_chain();
    let payload: Vec<u8> = (0u8..=255).collect();

    let stored = encode(&payload, &chain).unwrap();
    let back: Vec<u8> = decode(&stored, &chain).unwrap();
    assert_eq!(back, payload);
}

#[test]
fn an_empty_vec_round_trips_and_is_not_nothing() {
    let chain = default_chain();
    let stored = encode(&Vec::<u8>::new(), &chain).unwrap();
    assert!(
        !stored.is_empty(),
        "an empty value must still produce a non-empty record, \
         or storage cannot tell it from a missing key"
    );
    let back: Vec<u8> = decode(&stored, &chain).unwrap();
    assert!(back.is_empty());
}

#[test]
fn corruption_is_caught_by_the_checksum_not_by_the_deserialiser() {
    let chain = default_chain();
    let mut stored = encode(
        &Settings {
            theme: "dark".into(),
            scale: 1.0,
            enabled: false,
        },
        &chain,
    )
    .unwrap();

    // Flip a bit in the body, past the header.
    let mid = stored.len() / 2;
    stored[mid] ^= 0b0001_0000;

    match decode::<Settings>(&stored, &chain) {
        Err(Error::Corrupt(msg)) => assert!(
            msg.contains("CRC32"),
            "corruption should be caught by the checksum first, got: {msg}"
        ),
        other => panic!("expected a corrupt error, got {other:?}"),
    }
}

/// Demonstrates precisely why lockers carry a schema tag.
#[test]
fn decoding_as_the_wrong_type_is_not_reliably_detected() {
    let chain = default_chain();
    let stored = encode(&Other { a: 1, b: 2 }, &chain).unwrap();

    // postcard is not self-describing, so this may well succeed and hand
    // back a plausible value. The codec layer cannot prevent it; only a
    // recorded schema tag can. This test documents the hazard rather than
    // asserting an outcome either way.
    let reinterpreted = decode::<Pair>(&stored, &chain);
    assert!(
        reinterpreted.is_ok(),
        "a struct and a matching tuple share a postcard encoding, which is \
         exactly the confusion the schema tag exists to catch"
    );
}

#[test]
fn type_tag_distinguishes_types() {
    assert_ne!(type_tag::<Settings>(), type_tag::<Other>());
    assert_eq!(type_tag::<Settings>(), type_tag::<Settings>());
}
