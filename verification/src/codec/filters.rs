//! The filters the library ships: compression and checksumming.
//!
//! No cipher, so that key handling stays with the application that owns the
//! keys. Implement [`Filter`](super::api::Filter) to add one.

use vstd::prelude::*;

use super::api::{Filter, MAX_DECODED_BYTES};
use crate::bytes::{copy, extend, from_le32, le32, u32_from_le, u32_to_le};
use crate::error::{corrupt_with, Error, Result};
use crate::text::{around_two, decimal, hex, hex_text, two};

verus! {

/// The CRC-32 of a byte string, as `crc32fast::hash` computes it.
pub uninterp spec fn crc32(bytes: Seq<u8>) -> u32;

/// `crc32fast::hash` returns a checksum that depends on the bytes alone.
pub assume_specification[ crc32fast::hash ](buf: &[u8]) -> (sum: u32)
    ensures
        sum == crc32(buf@),
;

/// What `lz4_flex::decompress_size_prepended` makes of a byte string; `None`
/// where it refuses it.
pub uninterp spec fn lz4_block(stored: Seq<u8>) -> Option<Seq<u8>>;

/// The most bytes that compressing so many takes, with their length in front.
pub open spec fn lz4_most(len: nat) -> nat {
    24 + len * 110 / 100
}

/// `lz4_flex::compress_prepend_size` writes the input's length, as far as four
/// little-endian bytes hold it, and then a block that decompresses to the
/// input. That is claimed up to the length that is ever decompressed. What it
/// reserves bounds what it writes: a tenth more than the input, and a few bytes.
/// Which block it chooses is not said: it may differ between machines.
#[verifier::external_body]
fn lz4_compress(input: &[u8]) -> (out: Vec<u8>)
    ensures
        out@.len() >= 4,
        from_le32(out@.take(4)) == input@.len() % 0x1_0000_0000,
        input@.len() < 0x1_0000_0000 ==> out@.len() <= lz4_most(input@.len()),
        input@.len() <= MAX_DECODED_BYTES ==> lz4_block(out@) == Some(input@),
{
    lz4_flex::compress_prepend_size(input)
}

/// `lz4_flex::decompress_size_prepended` depends on its input alone. It
/// reserves as many bytes as the first four declare, so that number is bounded
/// before it is called. An error is handed back as its text.
#[verifier::external_body]
fn lz4_decompress(input: &[u8]) -> (r: core::result::Result<Vec<u8>, String>)
    requires
        input@.len() >= 4,
        from_le32(input@.take(4)) <= MAX_DECODED_BYTES,
    ensures
        r is Ok <==> lz4_block(input@) is Some,
        r matches Ok(out) ==> lz4_block(input@) == Some(out@),
{
    lz4_flex::decompress_size_prepended(input).map_err(|e| e.to_string())
}

/// LZ4 compression, length-prefixed.
///
/// Whether this earns its CPU is workload-dependent, which is why the chain is
/// configurable per locker rather than mandatory.
#[derive(Debug, Clone, Copy)]
pub struct Lz4;

impl Filter for Lz4 {
    open spec fn label(&self) -> Seq<char> {
        "lz4"@
    }

    open spec fn accepts(&self, input: Seq<u8>) -> bool {
        true
    }

    open spec fn forwards(&self, input: Seq<u8>, output: Seq<u8>) -> bool {
        &&& output.len() >= 4
        &&& from_le32(output.take(4)) == input.len() % 0x1_0000_0000
        &&& input.len() < 0x1_0000_0000 ==> output.len() <= lz4_most(input.len())
        &&& input.len() <= MAX_DECODED_BYTES ==> lz4_block(output) == Some(input)
    }

    open spec fn reversed(&self, stored: Seq<u8>) -> Option<Seq<u8>> {
        if stored.len() < 4 || from_le32(stored.take(4)) > MAX_DECODED_BYTES {
            None
        } else {
            lz4_block(stored)
        }
    }

    open spec fn declines(&self, input: Seq<u8>, e: Error) -> bool {
        false
    }

    /// A refused block keeps its own words behind the first ones.
    open spec fn rejects(&self, stored: Seq<u8>, e: Error) -> bool {
        if stored.len() < 4 {
            corrupt_with(e, "lz4 payload has no length prefix"@)
        } else if from_le32(stored.take(4)) > MAX_DECODED_BYTES {
            corrupt_with(
                e,
                "lz4 payload declares "@ + decimal(from_le32(stored.take(4)) as nat) + " bytes, over the "@ + decimal(
                    MAX_DECODED_BYTES as nat,
                ) + " byte limit"@,
            )
        } else {
            e is Corrupt
        }
    }

    open spec fn invertible(&self, input: Seq<u8>) -> bool {
        input.len() <= MAX_DECODED_BYTES
    }

    fn name(&self) -> (name: &'static str) {
        "lz4"
    }

    fn forward(&self, input: &[u8]) -> (r: Result<Vec<u8>>) {
        Ok(lz4_compress(input))
    }

    fn reverse(&self, input: &[u8]) -> (r: Result<Vec<u8>>) {
        // Check the declared size before allocating. A corrupt length field is
        // otherwise a straight path to an out-of-memory abort.
        if input.len() < 4 {
            return Err(Error::corrupt("lz4 payload has no length prefix"));
        }
        assert(input@.subrange(0, 4) =~= input@.take(4));
        let declared: u32 = u32_from_le(vstd::slice::slice_subrange(input, 0, 4));
        if declared as u64 > MAX_DECODED_BYTES as u64 {
            return Err(
                Error::Corrupt(
                    around_two(
                        "lz4 payload declares ",
                        declared as u64,
                        " bytes, over the ",
                        MAX_DECODED_BYTES as u64,
                        " byte limit",
                    ),
                ),
            );
        }
        match lz4_decompress(input) {
            Ok(out) => Ok(out),
            Err(text) => Err(Error::Corrupt(two("lz4 decompression failed: ", text.as_str()))),
        }
    }
}

/// The last four bytes of a body spell the checksum of the rest.
pub open spec fn sums_up(body: Seq<u8>) -> bool {
    body.len() >= 4 && from_le32(body.skip(body.len() - 4)) == crc32(body.take(body.len() - 4))
}

/// Appends a CRC32 of the input and verifies it on the way back.
///
/// Placed *after* compression in the default chain so the checksum covers the
/// stored bytes.
#[derive(Debug, Clone, Copy)]
pub struct Crc32;

impl Filter for Crc32 {
    open spec fn label(&self) -> Seq<char> {
        "crc32"@
    }

    open spec fn accepts(&self, input: Seq<u8>) -> bool {
        true
    }

    open spec fn forwards(&self, input: Seq<u8>, output: Seq<u8>) -> bool {
        output == input + le32(crc32(input))
    }

    open spec fn reversed(&self, stored: Seq<u8>) -> Option<Seq<u8>> {
        if stored.len() < 4 {
            None
        } else {
            let body = stored.take(stored.len() - 4);
            if from_le32(stored.skip(stored.len() - 4)) == crc32(body) {
                Some(body)
            } else {
                None
            }
        }
    }

    open spec fn declines(&self, input: Seq<u8>, e: Error) -> bool {
        false
    }

    open spec fn rejects(&self, stored: Seq<u8>, e: Error) -> bool {
        if stored.len() < 4 {
            corrupt_with(e, "value is too short to carry a CRC32"@)
        } else {
            corrupt_with(
                e,
                "CRC32 mismatch: stored "@ + ("0x"@ + hex(from_le32(stored.skip(stored.len() - 4)) as nat, 8))
                    + ", computed "@ + ("0x"@ + hex(crc32(stored.take(stored.len() - 4)) as nat, 8)),
            )
        }
    }

    open spec fn invertible(&self, input: Seq<u8>) -> bool {
        true
    }

    fn name(&self) -> (name: &'static str) {
        "crc32"
    }

    fn forward(&self, input: &[u8]) -> (r: Result<Vec<u8>>) {
        let sum: u32 = crc32fast::hash(input);
        let tail = u32_to_le(sum);
        let mut out = copy(input);
        extend(&mut out, tail.as_slice());
        proof {
            assert(out@.take(out@.len() - 4) =~= input@);
            assert(out@.skip(out@.len() - 4) =~= le32(sum));
            crate::bytes::le32_round_trips(sum);
        }
        Ok(out)
    }

    fn reverse(&self, input: &[u8]) -> (r: Result<Vec<u8>>) {
        if input.len() < 4 {
            return Err(Error::corrupt("value is too short to carry a CRC32"));
        }
        let split: usize = input.len() - 4;
        let body = vstd::slice::slice_subrange(input, 0, split);
        let tail = vstd::slice::slice_subrange(input, split, input.len());
        assert(body@ =~= input@.take(input@.len() - 4));
        assert(tail@ =~= input@.skip(input@.len() - 4));
        let expected: u32 = u32_from_le(tail);
        let actual: u32 = crc32fast::hash(body);
        if expected != actual {
            let text = two("CRC32 mismatch: stored ", hex_text(expected).as_str()).concat(", computed ").concat(
                hex_text(actual).as_str(),
            );
            return Err(Error::Corrupt(text));
        }
        Ok(copy(body))
    }
}

/// What is longer than may be decoded is compressed all the same, and refused
/// on the way back rather than expanded.
pub proof fn what_is_too_long_is_not_expanded(input: Seq<u8>, output: Seq<u8>)
    requires
        Lz4.forwards(input, output),
        MAX_DECODED_BYTES < input.len() < 0x1_0000_0000,
    ensures
        Lz4.reversed(output) is None,
{
}

/// Bytes whose last four do not spell the checksum of the rest are refused.
pub proof fn a_wrong_checksum_is_refused(body: Seq<u8>, sum: u32)
    requires
        sum != crc32(body),
    ensures
        Crc32.reversed(body + le32(sum)) is None,
{
    let stored = body + le32(sum);
    assert(stored.take(stored.len() - 4) =~= body);
    assert(stored.skip(stored.len() - 4) =~= le32(sum));
    crate::bytes::le32_round_trips(sum);
}

} // verus!
