//! Filters, chains and envelopes.

use crossbank::codec::api::{HEADER_LEN, VERSION};
use crossbank::codec::filters::{Crc32, Lz4};
use crossbank::codec::{default_chain, Filter, FilterChain};
use crossbank::{Error, Result};

const MAGIC: [u8; 4] = *b"CBNK";


/// A filter that is its own inverse, for exercising chain mechanics.
struct Xor(u8);

impl Filter for Xor {
    fn name(&self) -> &'static str {
        "xor"
    }
    fn forward(&self, input: &[u8]) -> Result<Vec<u8>> {
        Ok(input.iter().map(|b| b ^ self.0).collect())
    }
    fn reverse(&self, input: &[u8]) -> Result<Vec<u8>> {
        self.forward(input)
    }
}

/// Appends a byte on the way out and strips it on the way back, so filter
/// ORDER is observable.
struct Tag(u8);

impl Filter for Tag {
    fn name(&self) -> &'static str {
        "tag"
    }
    fn forward(&self, input: &[u8]) -> Result<Vec<u8>> {
        let mut v = input.to_vec();
        v.push(self.0);
        Ok(v)
    }
    fn reverse(&self, input: &[u8]) -> Result<Vec<u8>> {
        let mut v = input.to_vec();
        match v.pop() {
            Some(b) if b == self.0 => Ok(v),
            other => Err(Error::Corrupt(format!("tag mismatch: {other:?}"))),
        }
    }
}

/// Sealing an owned payload and sealing a borrowed one are the same
/// operation. `seal` prepends the header in place while `seal_slice`
/// copies first, so the two could drift byte for byte.
#[test]
fn seal_owned_and_seal_slice_produce_identical_bytes() {
    for chain in [FilterChain::raw(), default_chain()] {
        for len in [0usize, 1, 6, 7, 1000] {
            let payload: Vec<u8> = (0..len).map(|i| (i * 17 % 253) as u8).collect();
            assert_eq!(
                chain.seal(payload.clone()).unwrap(),
                chain.seal_slice(&payload).unwrap(),
                "{} disagreed at {len} bytes",
                chain.describe()
            );
            let sealed = chain.seal(payload.clone()).unwrap();
            assert_eq!(&sealed[0..4], &MAGIC, "the header must survive splicing");
            assert_eq!(sealed[4], VERSION);
            assert_eq!(sealed[5], chain.id());
            assert_eq!(chain.open(&sealed).unwrap(), payload);
        }
    }
}

#[test]
fn raw_chain_round_trips() {
    let c = FilterChain::raw();
    let sealed = c.seal_slice(b"hello").unwrap();
    assert_eq!(&sealed[0..4], &MAGIC);
    assert_eq!(c.open(&sealed).unwrap(), b"hello");
}

#[test]
fn an_empty_payload_round_trips() {
    // Must stay distinguishable from a missing value everywhere it travels.
    let c = FilterChain::raw();
    let sealed = c.seal_slice(b"").unwrap();
    assert_eq!(sealed.len(), HEADER_LEN);
    assert_eq!(c.open(&sealed).unwrap(), b"");
}

#[test]
fn filters_reverse_in_the_opposite_order() {
    // Tag(1) then Tag(2) writes ...0102; reversing must strip 2 first.
    let c = FilterChain::new(1, vec![Box::new(Tag(1)), Box::new(Tag(2))]);
    let sealed = c.seal_slice(b"x").unwrap();
    assert_eq!(&sealed[HEADER_LEN..], &[b'x', 1, 2]);
    assert_eq!(c.open(&sealed).unwrap(), b"x");
}

#[test]
fn a_foreign_blob_is_rejected() {
    let c = FilterChain::raw();
    assert!(matches!(
        c.open(b"not a crossbank value"),
        Err(Error::Corrupt(_))
    ));
}

#[test]
fn a_truncated_value_is_an_error_not_a_panic() {
    let c = FilterChain::raw();
    assert!(matches!(c.open(b"CB"), Err(Error::Corrupt(_))));
}

#[test]
fn a_future_version_is_refused_by_version_not_misread() {
    let c = FilterChain::raw();
    let mut sealed = c.seal_slice(b"payload").unwrap();
    sealed[4] = VERSION + 1;
    assert!(matches!(
        c.open(&sealed),
        Err(Error::UnsupportedVersion { .. })
    ));
}

/// The failure this design exists to prevent: bytes written under one chain
/// must never be run through a different chain's inverse.
#[test]
fn a_different_chain_is_refused_rather_than_misdecoded() {
    let writer = FilterChain::new(1, vec![Box::new(Xor(0xAA))]);
    let reader = FilterChain::new(2, vec![Box::new(Xor(0x55))]);

    let sealed = writer.seal_slice(b"secret").unwrap();
    match reader.open(&sealed) {
        Err(Error::SchemaMismatch { .. }) => {}
        other => panic!("expected a schema mismatch, got {other:?}"),
    }
}

#[test]
fn describe_names_the_filters_in_order() {
    let c = FilterChain::new(7, vec![Box::new(Tag(1)), Box::new(Xor(2))]);
    assert_eq!(c.describe(), "chain 7 (tag -> xor)");
    assert_eq!(FilterChain::raw().describe(), "chain 0 (raw)");
}


#[test]
fn lz4_round_trips_compressible_data() {
    let payload = vec![7u8; 100_000];
    let packed = Lz4.forward(&payload).unwrap();
    assert!(
        packed.len() < payload.len(),
        "repetitive data should shrink"
    );
    assert_eq!(Lz4.reverse(&packed).unwrap(), payload);
}

#[test]
fn lz4_round_trips_incompressible_data() {
    // Compression can legitimately grow a payload; the round trip must
    // still hold.
    let payload: Vec<u8> = (0..2048u32)
        .map(|i| (i.wrapping_mul(2654435761) >> 13) as u8)
        .collect();
    let packed = Lz4.forward(&payload).unwrap();
    assert_eq!(Lz4.reverse(&packed).unwrap(), payload);
}

#[test]
fn lz4_round_trips_empty() {
    let packed = Lz4.forward(b"").unwrap();
    assert_eq!(Lz4.reverse(&packed).unwrap(), b"");
}

#[test]
fn lz4_rejects_an_absurd_declared_size_without_allocating() {
    // A corrupt length field must be refused, not turned into a 4 GiB
    // allocation that aborts the process.
    let mut bogus = u32::MAX.to_le_bytes().to_vec();
    bogus.extend_from_slice(b"garbage");
    match Lz4.reverse(&bogus) {
        Err(Error::Corrupt(msg)) => assert!(msg.contains("limit"), "unexpected: {msg}"),
        other => panic!("expected a corrupt-size error, got {other:?}"),
    }
}

#[test]
fn crc32_round_trips_and_adds_four_bytes() {
    let out = Crc32.forward(b"hello").unwrap();
    assert_eq!(out.len(), 9);
    assert_eq!(Crc32.reverse(&out).unwrap(), b"hello");
}

#[test]
fn crc32_catches_a_single_flipped_bit() {
    // The whole point of carrying a checksum.
    let mut out = Crc32.forward(b"important payload").unwrap();
    out[3] ^= 0b0000_0001;
    assert!(matches!(Crc32.reverse(&out), Err(Error::Corrupt(_))));
}

#[test]
fn crc32_catches_a_corrupted_checksum() {
    let mut out = Crc32.forward(b"payload").unwrap();
    let last = out.len() - 1;
    out[last] ^= 0xFF;
    assert!(matches!(Crc32.reverse(&out), Err(Error::Corrupt(_))));
}

#[test]
fn crc32_rejects_a_truncated_value() {
    assert!(matches!(Crc32.reverse(&[1, 2]), Err(Error::Corrupt(_))));
}

#[test]
fn crc32_round_trips_empty() {
    let out = Crc32.forward(b"").unwrap();
    assert_eq!(out.len(), 4);
    assert_eq!(Crc32.reverse(&out).unwrap(), b"");
}


#[test]
fn the_default_chain_is_lz4_then_crc32() {
    // Order is load-bearing, so pin it.
    assert_eq!(default_chain().describe(), "chain 1 (lz4 -> crc32)");
}

#[test]
fn the_default_chain_does_not_collide_with_raw() {
    assert_ne!(FilterChain::raw().id(), default_chain().id());
}

/// Refuses what is too long, in its own words.
struct Short(usize);

impl Filter for Short {
    fn name(&self) -> &'static str {
        "short"
    }
    fn forward(&self, input: &[u8]) -> Result<Vec<u8>> {
        if input.len() > self.0 {
            return Err(Error::Filter(format!("{} is over {}", input.len(), self.0)));
        }
        Ok(input.to_vec())
    }
    fn reverse(&self, input: &[u8]) -> Result<Vec<u8>> {
        Ok(input.to_vec())
    }
}

#[test]
fn a_filters_refusal_is_handed_on() {
    let chain = FilterChain::new(
        9,
        vec![Box::new(Short(8)), Box::new(Tag(1)), Box::new(Short(4)), Box::new(Short(2))],
    );
    let over = |n: usize, most: usize| Err(Error::Filter(format!("{n} is over {most}")));
    assert_eq!(chain.seal(vec![0; 9]), over(9, 8));
    assert_eq!(chain.seal(vec![0; 8]), over(9, 4));
    assert_eq!(chain.seal(vec![0; 2]), over(3, 2));
    for len in 0..10 {
        assert_eq!(chain.seal(vec![7; len]), chain.seal_slice(&vec![7; len]));
    }
    assert!(chain.seal(vec![0; 1]).is_ok());
}
