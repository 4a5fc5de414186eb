//! Value encoding: the envelope, its filter chain, and the byte-vector codec.

use vstd::prelude::*;

use crate::bytes::le32;

pub mod api;
pub mod chain_laws;
pub mod filters;
pub mod value;

pub use api::{Filter, FilterChain, HEADER_LEN, MAX_DECODED_BYTES, VERSION};
pub use filters::{Crc32, Lz4};
pub use value::{decode, encode, type_tag, Value};

verus! {

/// Id of the chain returned by [`default_chain`].
pub const DEFAULT_CHAIN_ID: u8 = 1;

/// Id of the chain returned by [`FilterChain::checksum_only`].
///
/// Distinct from [`DEFAULT_CHAIN_ID`] and from [`FilterChain::raw`]'s `0`,
/// because the id is what gates format compatibility: two chains that
/// transform bytes differently must never share one.
pub const CHECKSUM_ONLY_CHAIN_ID: u8 = 2;

/// Two values as a list.
fn pair<T>(first: T, second: T) -> (list: Vec<T>)
    ensures
        list@.len() == 2,
        list@[0] == first,
        list@[1] == second,
{
    let mut list: Vec<T> = Vec::new();
    list.push(first);
    list.push(second);
    list
}

/// `stored` is `z`, a compressed payload, with its checksum behind it and the
/// default chain's header in front.
pub open spec fn compressed_as(payload: Seq<u8>, z: Seq<u8>, stored: Seq<u8>) -> bool {
    Lz4.forwards(payload, z) && stored == api::header(DEFAULT_CHAIN_ID) + (z + le32(filters::crc32(z)))
}

/// What the default chain is known by: it takes everything, compresses it and
/// sums up what it stores, opens nothing whose sum is wrong, and gives back
/// everything up to the limit on what is decoded.
pub open spec fn is_default(chain: FilterChain) -> bool {
    &&& chain.id_spec() == DEFAULT_CHAIN_ID
    &&& forall|payload: Seq<u8>| #[trigger] chain.takes(payload)
    &&& forall|payload: Seq<u8>| payload.len() <= MAX_DECODED_BYTES ==> #[trigger] chain.keeps(payload)
    &&& chain.calls_it_corruption()
    &&& forall|payload: Seq<u8>, stored: Seq<u8>| #[trigger]
        chain.seals(payload, stored) ==> exists|z: Seq<u8>| #[trigger] compressed_as(payload, z, stored)
    &&& forall|stored: Seq<u8>| #[trigger]
        chain.opened(stored) is Some ==> filters::sums_up(stored.skip(HEADER_LEN as int))
    &&& chain.description() == "chain "@ + crate::text::decimal(1) + " ("@ + ("lz4"@ + " -> "@ + "crc32"@) + ")"@
}

/// The chain used unless a locker asks for another: LZ4, then CRC32.
///
/// Compression first so the checksum covers what is actually stored — bit rot
/// is then caught before decompression, rather than by feeding a damaged
/// stream to a decompressor.
pub fn default_chain() -> (chain: FilterChain)
    ensures
        is_default(chain),
{
    let filters = pair::<Box<dyn Filter>>(Box::new(Lz4), Box::new(Crc32));
    let chain = FilterChain::new(DEFAULT_CHAIN_ID, filters);
    proof {
        reveal_with_fuel(api::labels, 3);
        assert forall|payload: Seq<u8>| payload.len() <= MAX_DECODED_BYTES implies #[trigger] chain.keeps(payload) by {
            assert forall|i: int, mid: Seq<u8>|
                0 <= i < chain.filters().len() && #[trigger] api::wound(chain.filters(), i, payload, mid) implies chain.filters()[i].invertible(
            mid) by {
                if i == 0 {
                    api::winding_none(chain.filters(), payload, mid);
                }
            }
        }
        reveal_with_fuel(api::unwound, 3);
        assert forall|payload: Seq<u8>, stored: Seq<u8>| #[trigger] chain.seals(payload, stored) implies exists|
            z: Seq<u8>,
        | #[trigger] compressed_as(payload, z, stored) by {
            let body = stored.skip(HEADER_LEN as int);
            api::winding_one_more(chain.filters(), 2, payload, body);
            let z = choose|mid: Seq<u8>| #[trigger]
                api::wound(chain.filters(), 2 - 1, payload, mid) && chain.filters()[2 - 1].accepts(mid)
                    && chain.filters()[2 - 1].forwards(mid, body);
            api::winding_one_more(chain.filters(), 1, payload, z);
            let first = choose|mid: Seq<u8>| #[trigger]
                api::wound(chain.filters(), 1 - 1, payload, mid) && chain.filters()[1 - 1].accepts(mid)
                    && chain.filters()[1 - 1].forwards(mid, z);
            api::winding_none(chain.filters(), payload, first);
            assert(stored =~= stored.take(HEADER_LEN as int) + body);
            assert(compressed_as(payload, z, stored));
        }
    }
    chain
}

/// The most bytes that the default chain stores for a payload.
pub open spec fn stored_most(len: nat) -> nat {
    HEADER_LEN as nat + filters::lz4_most(len) + 4
}

/// The default chain stores little more than it is given: a tenth, and a few
/// bytes.
pub proof fn the_default_chain_adds_little(chain: &FilterChain, payload: Seq<u8>, stored: Seq<u8>)
    requires
        is_default(*chain),
        chain.seals(payload, stored),
        payload.len() < 0x1_0000_0000,
    ensures
        stored.len() <= stored_most(payload.len()),
{
    let z = choose|z: Seq<u8>| #[trigger] compressed_as(payload, z, stored);
    assert(stored.len() == HEADER_LEN + (z.len() + 4));
}

/// Bit rot is caught before anything is decompressed: bytes whose checksum does
/// not fit are opened by no default chain.
pub proof fn bit_rot_is_caught(chain: &FilterChain, stored: Seq<u8>)
    requires
        is_default(*chain),
        !filters::sums_up(stored.skip(HEADER_LEN as int)),
    ensures
        chain.opened(stored) is None,
{
}

} // verus!
