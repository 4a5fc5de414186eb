//! The value envelope and its filter chain.
//!
//! A stored value is serialised once, then pushed through an ordered chain of
//! byte-to-byte transforms, then wrapped in a small fixed header.
//!
//! # Header
//!
//! ```text
//! [0..4] magic "CBNK"
//! [4]    envelope version
//! [5]    filter chain id
//! [6..]  payload
//! ```
//!
//! The chain id is what makes a format change survivable: data written under a
//! different chain fails loudly on open instead of being fed to the wrong
//! inverse transform.

use vstd::prelude::*;

use crate::bytes::{copy, joined, tail_of};
use crate::error::{corrupt_with, says_the_same, Error, Result};
use crate::text::{around, around_two, decimal, two};

verus! {

/// Current envelope version.
pub const VERSION: u8 = 1;

/// Bytes of fixed header preceding the payload.
pub const HEADER_LEN: usize = 6;

/// Refuse to allocate more than this when decoding, so a corrupt length field
/// cannot be turned into an out-of-memory abort.
pub const MAX_DECODED_BYTES: usize = 268_435_456;

/// Envelope magic, `CBNK`. Present so a foreign or truncated blob is rejected
/// before anything tries to interpret it.
pub open spec fn magic() -> Seq<u8> {
    seq![0x43u8, 0x42u8, 0x4Eu8, 0x4Bu8]
}

/// The fixed header for `chain_id`, as bytes.
pub open spec fn header(chain_id: u8) -> Seq<u8> {
    magic() + seq![VERSION, chain_id]
}

/// A reversible byte transform.
///
/// Implement this to plug in encryption: no cipher ships with the library,
/// deliberately, so that key handling stays with the application that owns the
/// keys.
///
/// The spec functions are what an implementation is held to where it is
/// verified; one that is not need not name them.
pub trait Filter {
    /// The name, as text.
    open spec fn label(&self) -> Seq<char> {
        arbitrary()
    }

    /// Whether [`Filter::forward`] succeeds on an input.
    open spec fn accepts(&self, input: Seq<u8>) -> bool {
        arbitrary()
    }

    /// Whether `output` is something [`Filter::forward`] may make of `input`.
    open spec fn forwards(&self, input: Seq<u8>, output: Seq<u8>) -> bool {
        arbitrary()
    }

    /// What [`Filter::reverse`] makes of stored bytes; `None` where it refuses
    /// them.
    open spec fn reversed(&self, stored: Seq<u8>) -> Option<Seq<u8>> {
        arbitrary()
    }

    /// Whether `e` is what [`Filter::forward`] says of an input it does not
    /// accept.
    open spec fn declines(&self, input: Seq<u8>, e: Error) -> bool {
        arbitrary()
    }

    /// Whether `e` is what [`Filter::reverse`] says of stored bytes it refuses.
    open spec fn rejects(&self, stored: Seq<u8>, e: Error) -> bool {
        arbitrary()
    }

    /// Whether what [`Filter::forward`] makes of `input` reverses to `input`.
    open spec fn invertible(&self, input: Seq<u8>) -> bool {
        arbitrary()
    }

    /// Short name, for diagnostics only. Not part of the format.
    fn name(&self) -> (name: &'static str)
        ensures
            name@ == self.label(),
    ;

    /// Applied on the way to storage.
    fn forward(&self, input: &[u8]) -> (r: Result<Vec<u8>>)
        ensures
            r is Ok <==> self.accepts(input@),
            r matches Ok(out) ==> self.forwards(input@, out@) && (self.invertible(input@) ==> self.reversed(out@)
                == Some(input@)),
            r matches Err(e) ==> self.declines(input@, e),
    ;

    /// Applied on the way back. Inverts [`Filter::forward`].
    fn reverse(&self, input: &[u8]) -> (r: Result<Vec<u8>>)
        ensures
            r is Ok <==> self.reversed(input@) is Some,
            r matches Ok(out) ==> self.reversed(input@) == Some(out@),
            r matches Err(e) ==> self.rejects(input@, e),
    ;

    /// [`Filter::forward`], handed a buffer it may consume.
    fn forward_owned(&self, input: Vec<u8>) -> (r: Result<Vec<u8>>)
        ensures
            r is Ok <==> self.accepts(input@),
            r matches Ok(out) ==> self.forwards(input@, out@) && (self.invertible(input@) ==> self.reversed(out@)
                == Some(input@)),
            r matches Err(e) ==> self.declines(input@, e),
    {
        self.forward(input.as_slice())
    }

    /// [`Filter::reverse`], handed a buffer it may consume.
    fn reverse_owned(&self, input: Vec<u8>) -> (r: Result<Vec<u8>>)
        ensures
            r is Ok <==> self.reversed(input@) is Some,
            r matches Ok(out) ==> self.reversed(input@) == Some(out@),
            r matches Err(e) ==> self.rejects(input@, e),
    {
        self.reverse(input.as_slice())
    }
}

/// `trace` starts at `input`, passes one of the first `n` filters at each
/// step, and ends at `output`.
pub open spec fn traces(
    filters: Seq<Box<dyn Filter>>,
    n: int,
    input: Seq<u8>,
    output: Seq<u8>,
    trace: Seq<Seq<u8>>,
) -> bool {
    &&& trace.len() == n + 1
    &&& trace[0] == input
    &&& trace[n] == output
    &&& forall|i: int|
        0 <= i < n ==> filters[i].accepts(#[trigger] trace[i]) && filters[i].forwards(trace[i], trace[i + 1])
}

/// `output` is what the first `n` filters may make of `input`, in order.
pub open spec fn wound(filters: Seq<Box<dyn Filter>>, n: int, input: Seq<u8>, output: Seq<u8>) -> bool {
    exists|trace: Seq<Seq<u8>>| traces(filters, n, input, output, trace)
}

/// No filter at all changes nothing.
pub proof fn winding_none(filters: Seq<Box<dyn Filter>>, input: Seq<u8>, output: Seq<u8>)
    ensures
        wound(filters, 0, input, output) <==> input == output,
{
    if input == output {
        assert(traces(filters, 0, input, output, seq![input]));
    }
}

/// One more filter is one more step.
pub proof fn winding_one_more(filters: Seq<Box<dyn Filter>>, n: int, input: Seq<u8>, output: Seq<u8>)
    requires
        0 < n,
    ensures
        wound(filters, n, input, output) <==> exists|mid: Seq<u8>| #[trigger]
            wound(filters, n - 1, input, mid) && filters[n - 1].accepts(mid) && filters[n - 1].forwards(mid, output),
{
    if wound(filters, n, input, output) {
        let trace = choose|trace: Seq<Seq<u8>>| traces(filters, n, input, output, trace);
        let mid = trace[n - 1];
        assert forall|i: int| 0 <= i < n - 1 implies filters[i].accepts(#[trigger] trace.drop_last()[i])
            && filters[i].forwards(trace.drop_last()[i], trace.drop_last()[i + 1]) by {
            assert(filters[i].forwards(trace[i], trace[i + 1]));
        }
        assert(traces(filters, n - 1, input, mid, trace.drop_last()));
        assert(wound(filters, n - 1, input, mid));
        assert(filters[n - 1].forwards(trace[n - 1], trace[n]));
    }
    if exists|mid: Seq<u8>| #[trigger]
        wound(filters, n - 1, input, mid) && filters[n - 1].accepts(mid) && filters[n - 1].forwards(mid, output) {
        let mid = choose|mid: Seq<u8>| #[trigger]
            wound(filters, n - 1, input, mid) && filters[n - 1].accepts(mid) && filters[n - 1].forwards(mid, output);
        let m = n - 1;
        let trace = choose|trace: Seq<Seq<u8>>| traces(filters, m, input, mid, trace);
        let longer = trace.push(output);
        assert forall|i: int| 0 <= i < n implies filters[i].accepts(#[trigger] longer[i]) && filters[i].forwards(
            longer[i],
            longer[i + 1],
        ) by {
            if i < n - 1 {
                assert(filters[i].forwards(trace[i], trace[i + 1]));
            }
        }
        assert(traces(filters, n, input, output, longer));
    }
}

/// What the first `n` filters make of stored bytes, last filter first.
pub open spec fn unwound(filters: Seq<Box<dyn Filter>>, n: int, body: Seq<u8>) -> Option<Seq<u8>>
    decreases n,
{
    if n <= 0 {
        Some(body)
    } else {
        match filters[n - 1].reversed(body) {
            Some(mid) => unwound(filters, n - 1, mid),
            None => None,
        }
    }
}

/// `e` is what the first of the filters to refuse says, last filter first.
pub open spec fn unwinding_fails(filters: Seq<Box<dyn Filter>>, n: int, body: Seq<u8>, e: Error) -> bool
    decreases n,
{
    if n <= 0 {
        false
    } else {
        match filters[n - 1].reversed(body) {
            Some(mid) => unwinding_fails(filters, n - 1, mid, e),
            None => filters[n - 1].rejects(body, e),
        }
    }
}

/// Filter `i` is reached with `mid`, does not accept it, and says `e`.
pub open spec fn stops_at(filters: Seq<Box<dyn Filter>>, input: Seq<u8>, i: int, mid: Seq<u8>, e: Error) -> bool {
    &&& 0 <= i < filters.len()
    &&& wound(filters, i, input, mid)
    &&& !filters[i].accepts(mid)
    &&& filters[i].declines(mid, e)
}

/// Whether a filter makes one thing of an input, or says one thing of it.
pub open spec fn is_steady(filters: Seq<Box<dyn Filter>>, i: int) -> bool {
    &&& forall|input: Seq<u8>, a: Seq<u8>, b: Seq<u8>| #[trigger]
        filters[i].forwards(input, a) && #[trigger] filters[i].forwards(input, b) ==> a == b
    &&& forall|input: Seq<u8>, a: Error, b: Error| #[trigger]
        filters[i].declines(input, a) && #[trigger] filters[i].declines(input, b) ==> says_the_same(a, b)
}

/// The names of the first `n` filters, with arrows between them.
pub open spec fn labels(filters: Seq<Box<dyn Filter>>, n: int) -> Seq<char>
    decreases n,
{
    if n <= 0 {
        Seq::empty()
    } else if n == 1 {
        filters[0].label()
    } else {
        labels(filters, n - 1) + " -> "@ + filters[n - 1].label()
    }
}

/// An ordered chain of filters, plus the id recorded in every value it writes.
///
/// The id is the compatibility gate. Two chains that transform bytes
/// differently must never share an id, or data written by one will be handed
/// to the other's inverse and decode into plausible garbage.
pub struct FilterChain {
    id: u8,
    filters: Vec<Box<dyn Filter>>,
}

impl FilterChain {
    /// The id recorded in every value.
    pub closed spec fn id_spec(&self) -> u8 {
        self.id
    }

    /// The filters, in the order they are applied on the way to storage.
    pub closed spec fn filters(&self) -> Seq<Box<dyn Filter>> {
        self.filters@
    }

    /// What the chain calls itself.
    pub open spec fn description(&self) -> Seq<char> {
        if self.filters().len() == 0 {
            "chain "@ + decimal(self.id_spec() as nat) + " (raw)"@
        } else {
            "chain "@ + decimal(self.id_spec() as nat) + " ("@ + labels(
                self.filters(),
                self.filters().len() as int,
            ) + ")"@
        }
    }

    /// Whether every filter accepts what reaches it from `payload`.
    pub open spec fn takes(&self, payload: Seq<u8>) -> bool {
        forall|i: int, mid: Seq<u8>|
            0 <= i < self.filters().len() && #[trigger] wound(self.filters(), i, payload, mid) ==> self.filters()[i].accepts(mid)
    }

    /// Whether every filter can undo what it makes of what reaches it from
    /// `payload`.
    pub open spec fn keeps(&self, payload: Seq<u8>) -> bool {
        forall|i: int, mid: Seq<u8>|
            0 <= i < self.filters().len() && #[trigger] wound(self.filters(), i, payload, mid) ==> self.filters()[i].invertible(mid)
    }

    /// Whether `stored` is an envelope this chain may make of `payload`.
    pub open spec fn seals(&self, payload: Seq<u8>, stored: Seq<u8>) -> bool {
        &&& stored.len() >= HEADER_LEN
        &&& stored.take(HEADER_LEN as int) == header(self.id_spec())
        &&& wound(self.filters(), self.filters().len() as int, payload, stored.skip(HEADER_LEN as int))
        &&& self.keeps(payload) ==> self.opened(stored) == Some(payload)
    }

    /// Whether `e` is what the first filter to refuse says of what reaches it
    /// from `payload`.
    pub open spec fn declines(&self, payload: Seq<u8>, e: Error) -> bool {
        exists|i: int, mid: Seq<u8>| #[trigger] stops_at(self.filters(), payload, i, mid, e)
    }

    /// Whether `r` is what sealing a payload gives: an envelope of what every
    /// filter in turn made of it, or what the first to refuse had to say.
    pub open spec fn seal_gives(&self, payload: Seq<u8>, r: Result<Vec<u8>>) -> bool {
        match r {
            Ok(out) => self.seals(payload, out@),
            Err(e) => self.declines(payload, e),
        }
    }

    /// Whether `e` is why an envelope cannot be opened: its header, or what the
    /// first filter to refuse says of its body.
    pub open spec fn refuses(&self, stored: Seq<u8>, e: Error) -> bool {
        if stored.len() >= HEADER_LEN && stored.take(HEADER_LEN as int) == header(self.id_spec()) {
            unwinding_fails(self.filters(), self.filters().len() as int, stored.skip(HEADER_LEN as int), e)
        } else {
            self.refuses_header(stored, e)
        }
    }

    /// Whether whatever a filter refuses on the way back it calls corruption.
    pub open spec fn calls_it_corruption(&self) -> bool {
        forall|i: int, body: Seq<u8>, e: Error|
            0 <= i < self.filters().len() && #[trigger] self.filters()[i].rejects(body, e) ==> e.spec_is_corruption()
    }

    /// The payload an envelope holds, or `None` where this chain refuses it.
    pub open spec fn opened(&self, stored: Seq<u8>) -> Option<Seq<u8>> {
        if stored.len() >= HEADER_LEN && stored.take(HEADER_LEN as int) == header(self.id_spec()) {
            unwound(self.filters(), self.filters().len() as int, stored.skip(HEADER_LEN as int))
        } else {
            None
        }
    }

    /// Why an envelope is refused before any filter sees it.
    pub open spec fn refuses_header(&self, stored: Seq<u8>, e: Error) -> bool {
        if stored.len() < HEADER_LEN {
            corrupt_with(
                e,
                "value is "@ + decimal(stored.len()) + " bytes, shorter than the "@ + decimal(HEADER_LEN as nat)
                    + " byte header"@,
            )
        } else if stored.take(4) != magic() {
            corrupt_with(e, "value does not carry the crossbank magic"@)
        } else if stored[4] != VERSION {
            e == (Error::UnsupportedVersion { found: stored[4], supported: VERSION })
        } else {
            &&& stored[5] != self.id_spec()
            &&& e matches Error::SchemaMismatch { stored: s, requested } && s@ == "chain "@ + decimal(
                stored[5] as nat,
            ) && requested@ == self.description()
        }
    }

    /// Build a chain. `id` must be unique across every chain an application
    /// ever writes with.
    pub fn new(id: u8, filters: Vec<Box<dyn Filter>>) -> (chain: Self)
        ensures
            chain.id_spec() == id,
            chain.filters() == filters@,
    {
        FilterChain { id, filters }
    }

    /// A chain that stores bytes exactly as given. Useful for
    /// already-compressed or already-encrypted payloads, where a second pass is
    /// wasted work.
    pub fn raw() -> (chain: Self)
        ensures
            chain.id_spec() == 0,
            chain.filters().len() == 0,
    {
        FilterChain::new(0, Vec::new())
    }

    /// A chain that checksums and nothing else: CRC32, no compression.
    ///
    /// The middle option between [`FilterChain::raw`], which detects no
    /// corruption at all, and [`crate::codec::default_chain`], which pays LZ4
    /// for every value.
    pub fn checksum_only() -> (chain: Self)
        ensures
            chain.id_spec() == super::CHECKSUM_ONLY_CHAIN_ID,
            forall|payload: Seq<u8>| #[trigger] chain.takes(payload),
            forall|payload: Seq<u8>| #[trigger] chain.keeps(payload),
            chain.calls_it_corruption(),
            forall|stored: Seq<u8>| #[trigger]
                chain.opened(stored) is Some ==> super::filters::sums_up(stored.skip(HEADER_LEN as int)),
            forall|i: int| 0 <= i < chain.filters().len() ==> #[trigger] is_steady(chain.filters(), i),
            chain.description() == "chain "@ + decimal(2) + " ("@ + "crc32"@ + ")"@,
            forall|payload: Seq<u8>, stored: Seq<u8>|
                #[trigger] chain.seals(payload, stored) ==> stored == header(2) + (payload + crate::bytes::le32(
                    super::filters::crc32(payload),
                )),
    {
        let filters = only::<Box<dyn Filter>>(Box::new(super::filters::Crc32));
        let chain = FilterChain::new(super::CHECKSUM_ONLY_CHAIN_ID, filters);
        proof {
            reveal_with_fuel(labels, 2);
            reveal_with_fuel(unwound, 2);
            assert forall|payload: Seq<u8>, stored: Seq<u8>| #[trigger] chain.seals(payload, stored) implies stored
                == header(2) + (payload + crate::bytes::le32(super::filters::crc32(payload))) by {
                let body = stored.skip(HEADER_LEN as int);
                winding_one_more(chain.filters(), 1, payload, body);
                let mid = choose|mid: Seq<u8>| #[trigger]
                    wound(chain.filters(), 1 - 1, payload, mid) && chain.filters()[1 - 1].forwards(mid, body);
                winding_none(chain.filters(), payload, mid);
                assert(stored =~= stored.take(HEADER_LEN as int) + stored.skip(HEADER_LEN as int));
            }
        }
        chain
    }

    /// The id recorded in every value.
    pub fn id(&self) -> (id: u8)
        ensures
            id == self.id_spec(),
    {
        self.id
    }

    /// Human-readable description, for error messages.
    pub fn describe(&self) -> (text: String)
        ensures
            text@ == self.description(),
    {
        let n: usize = self.filters.len();
        if n == 0 {
            return around("chain ", self.id as u64, " (raw)");
        }
        let mut names = String::from_str(self.filters[0].name());
        let mut i: usize = 1;
        while i < n
            invariant
                n == self.filters@.len(),
                1 <= i <= n,
                names@ == labels(self.filters@, i as int),
            decreases n - i,
        {
            names = names.concat(" -> ").concat(self.filters[i].name());
            i += 1;
        }
        around("chain ", self.id as u64, " (").concat(names.as_str()).concat(")")
    }

    /// Wrap `payload` for storage.
    ///
    /// Takes the payload **by value** so it can be handed down the chain
    /// rather than copied into it.
    pub fn seal(&self, payload: Vec<u8>) -> (r: Result<Vec<u8>>)
        ensures
            self.takes(payload@) ==> r is Ok,
            self.seal_gives(payload@, r),
    {
        let ghost start = payload@;
        let mut body = payload;
        let mut i: usize = 0;
        proof {
            winding_none(self.filters@, start, start);
        }
        while i < self.filters.len()
            invariant
                i <= self.filters.len(),
                start == payload@,
                wound(self.filters@, i as int, start, body@),
                self.keeps(start) ==> unwound(self.filters@, i as int, body@) == Some(start),
            decreases self.filters.len() - i,
        {
            let ghost mid = body@;
            assert(wound(self.filters(), i as int, start, mid));
            match self.filters[i].forward_owned(body) {
                Ok(next) => {
                    body = next;
                },
                Err(e) => {
                    assert(stops_at(self.filters(), start, i as int, mid, e));
                    return Err(e);
                },
            }
            proof {
                assert(wound(self.filters@, (i + 1) - 1, start, mid));
                winding_one_more(self.filters@, i + 1, start, body@);
            }
            i += 1;
        }
        let out = joined(header_bytes(self.id).as_slice(), body.as_slice());
        proof {
            assert(out@.take(HEADER_LEN as int) =~= header(self.id));
            assert(out@.skip(HEADER_LEN as int) =~= body@);
        }
        Ok(out)
    }

    /// [`FilterChain::seal`] for a caller that only has a borrow.
    pub fn seal_slice(&self, payload: &[u8]) -> (r: Result<Vec<u8>>)
        ensures
            self.takes(payload@) ==> r is Ok,
            self.seal_gives(payload@, r),
    {
        self.seal(copy(payload))
    }

    /// Unwrap a stored value.
    pub fn open(&self, stored: &[u8]) -> (r: Result<Vec<u8>>)
        ensures
            r is Ok <==> self.opened(stored@) is Some,
            r matches Ok(out) ==> self.opened(stored@) == Some(out@),
            r matches Err(e) ==> self.refuses(stored@, e),
    {
        proof {
            let h = stored@.take(HEADER_LEN as int);
            if stored@.len() >= HEADER_LEN {
                assert(h == header(self.id) <==> stored@.take(4) == magic() && stored@[4] == VERSION && stored@[5]
                    == self.id) by {
                    if h == header(self.id) {
                        assert(stored@.take(4) =~= h.take(4));
                        assert(magic() =~= header(self.id).take(4));
                        assert(h[4] == VERSION && h[5] == self.id);
                    }
                    if stored@.take(4) == magic() && stored@[4] == VERSION && stored@[5] == self.id {
                        assert(h =~= stored@.take(4) + seq![stored@[4], stored@[5]]);
                    }
                }
            }
        }
        if stored.len() < HEADER_LEN {
            return Err(
                Error::Corrupt(
                    around_two(
                        "value is ",
                        stored.len() as u64,
                        " bytes, shorter than the ",
                        HEADER_LEN as u64,
                        " byte header",
                    ),
                ),
            );
        }
        let carries_magic: bool = stored[0] == 0x43 && stored[1] == 0x42 && stored[2] == 0x4E && stored[3] == 0x4B;
        assert(carries_magic <==> stored@.take(4) =~= magic());
        if !carries_magic {
            return Err(Error::corrupt("value does not carry the crossbank magic"));
        }
        let version: u8 = stored[4];
        if version != VERSION {
            return Err(Error::UnsupportedVersion { found: version, supported: VERSION });
        }
        let chain: u8 = stored[5];
        if chain != self.id {
            // Loud, not silent. Decoding under the wrong chain would run the
            // wrong inverse transform and could yield a valid-looking value.
            return Err(
                Error::SchemaMismatch {
                    stored: two("chain ", crate::text::decimal_text(chain as u64).as_str()),
                    requested: self.describe(),
                },
            );
        }
        let mut body = tail_of(stored, HEADER_LEN);
        let mut i: usize = self.filters.len();
        while i > 0
            invariant
                i <= self.filters.len(),
                unwound(self.filters@, self.filters@.len() as int, stored@.skip(HEADER_LEN as int)) == unwound(
                    self.filters@,
                    i as int,
                    body@,
                ),
                forall|e: Error|
                    #[trigger] unwinding_fails(
                        self.filters@,
                        self.filters@.len() as int,
                        stored@.skip(HEADER_LEN as int),
                        e,
                    ) == unwinding_fails(self.filters@, i as int, body@, e),
                stored@.len() >= HEADER_LEN,
                stored@.take(HEADER_LEN as int) == header(self.id),
            decreases i,
        {
            i -= 1;
            let ghost was = body@;
            match self.filters[i].reverse_owned(body) {
                Ok(next) => {
                    body = next;
                },
                Err(e) => {
                    assert(unwinding_fails(self.filters@, i + 1, was, e));
                    return Err(e);
                },
            }
        }
        Ok(body)
    }
}

/// One value as a list.
fn only<T>(item: T) -> (list: Vec<T>)
    ensures
        list@.len() == 1,
        list@[0] == item,
{
    let mut list: Vec<T> = Vec::new();
    list.push(item);
    list
}

/// [`header`] as an executable function.
fn header_bytes(chain_id: u8) -> (h: Vec<u8>)
    ensures
        h@ == header(chain_id),
{
    let mut h: Vec<u8> = Vec::with_capacity(HEADER_LEN);
    h.push(0x43);
    h.push(0x42);
    h.push(0x4E);
    h.push(0x4B);
    h.push(VERSION);
    h.push(chain_id);
    assert(h@ =~= header(chain_id));
    h
}

/// Sealing and opening with one chain gives the payload back, wherever every
/// filter can undo its own work.
pub proof fn opening_undoes_sealing(chain: FilterChain, payload: Seq<u8>, sealed: Seq<u8>)
    requires
        chain.seals(payload, sealed),
        chain.keeps(payload),
    ensures
        chain.opened(sealed) == Some(payload),
{
}

/// Where a chain refuses bytes and its filters call what they refuse
/// corruption, the refusal is corruption: a header always is.
pub proof fn what_is_refused_is_corruption(chain: FilterChain, stored: Seq<u8>, e: Error)
    requires
        chain.calls_it_corruption(),
        chain.refuses(stored, e),
    ensures
        e.spec_is_corruption(),
{
    if stored.len() >= HEADER_LEN && stored.take(HEADER_LEN as int) == header(chain.id_spec()) {
        a_failed_unwinding_is_a_rejection(
            chain.filters(),
            chain.filters().len() as int,
            stored.skip(HEADER_LEN as int),
            e,
        );
    }
}

proof fn a_failed_unwinding_is_a_rejection(filters: Seq<Box<dyn Filter>>, n: int, body: Seq<u8>, e: Error)
    requires
        n <= filters.len(),
        unwinding_fails(filters, n, body, e),
    ensures
        exists|i: int, mid: Seq<u8>| 0 <= i < filters.len() && #[trigger] filters[i].rejects(mid, e),
    decreases n,
{
    if n > 0 {
        match filters[n - 1].reversed(body) {
            Some(mid) => a_failed_unwinding_is_a_rejection(filters, n - 1, mid, e),
            None => {
                assert(filters[n - 1].rejects(body, e));
            },
        }
    }
}

/// What one payload is made into by steady filters is one thing.
proof fn winding_is_steady(filters: Seq<Box<dyn Filter>>, n: int, input: Seq<u8>, a: Seq<u8>, b: Seq<u8>)
    requires
        0 <= n <= filters.len(),
        forall|i: int| 0 <= i < filters.len() ==> #[trigger] is_steady(filters, i),
        wound(filters, n, input, a),
        wound(filters, n, input, b),
    ensures
        a == b,
    decreases n,
{
    if n == 0 {
        winding_none(filters, input, a);
        winding_none(filters, input, b);
    } else {
        winding_one_more(filters, n, input, a);
        winding_one_more(filters, n, input, b);
        let x = choose|mid: Seq<u8>| #[trigger]
            wound(filters, n - 1, input, mid) && filters[n - 1].accepts(mid) && filters[n - 1].forwards(mid, a);
        let y = choose|mid: Seq<u8>| #[trigger]
            wound(filters, n - 1, input, mid) && filters[n - 1].accepts(mid) && filters[n - 1].forwards(mid, b);
        winding_is_steady(filters, n - 1, input, x, y);
        assert(is_steady(filters, n - 1));
    }
}

/// What has passed `n` filters has passed the first `i` of them, and been
/// accepted by the next.
proof fn winding_passes(filters: Seq<Box<dyn Filter>>, n: int, i: int, input: Seq<u8>, output: Seq<u8>) -> (mid: Seq<u8>)
    requires
        0 <= i < n <= filters.len(),
        wound(filters, n, input, output),
    ensures
        wound(filters, i, input, mid),
        filters[i].accepts(mid),
    decreases n,
{
    winding_one_more(filters, n, input, output);
    let x = choose|mid: Seq<u8>| #[trigger]
        wound(filters, n - 1, input, mid) && filters[n - 1].accepts(mid) && filters[n - 1].forwards(mid, output);
    if i == n - 1 {
        x
    } else {
        winding_passes(filters, n - 1, i, input, x)
    }
}

/// Steady filters seal one payload one way, whether it is handed over or lent,
/// and however long it is: both times the same bytes, or both times the same
/// refusal.
pub proof fn sealing_is_steady(chain: FilterChain, payload: Seq<u8>, a: Result<Vec<u8>>, b: Result<Vec<u8>>)
    requires
        forall|i: int| 0 <= i < chain.filters().len() ==> #[trigger] is_steady(chain.filters(), i),
        chain.seal_gives(payload, a),
        chain.seal_gives(payload, b),
    ensures
        match (a, b) {
            (Ok(x), Ok(y)) => x@ == y@,
            (Err(x), Err(y)) => says_the_same(x, y),
            _ => false,
        },
{
    let filters = chain.filters();
    let n = filters.len() as int;
    let h = HEADER_LEN as int;
    match (a, b) {
        (Ok(x), Ok(y)) => {
            winding_is_steady(filters, n, payload, x@.skip(h), y@.skip(h));
            assert(x@ =~= x@.take(h) + x@.skip(h));
            assert(y@ =~= y@.take(h) + y@.skip(h));
        },
        (Ok(x), Err(y)) => sealing_is_not_both(chain, payload, x@, y),
        (Err(x), Ok(y)) => sealing_is_not_both(chain, payload, y@, x),
        (Err(x), Err(y)) => {
            let (i, s) = choose|i: int, mid: Seq<u8>| #[trigger] stops_at(filters, payload, i, mid, x);
            let (j, t) = choose|i: int, mid: Seq<u8>| #[trigger] stops_at(filters, payload, i, mid, y);
            if i < j {
                let mid = winding_passes(filters, j, i, payload, t);
                winding_is_steady(filters, i, payload, mid, s);
            } else if j < i {
                let mid = winding_passes(filters, i, j, payload, s);
                winding_is_steady(filters, j, payload, mid, t);
            } else {
                winding_is_steady(filters, i, payload, s, t);
                assert(is_steady(filters, i));
            }
        },
    }
}

/// Steady filters do not both seal a payload and refuse it.
proof fn sealing_is_not_both(chain: FilterChain, payload: Seq<u8>, sealed: Seq<u8>, e: Error)
    requires
        forall|i: int| 0 <= i < chain.filters().len() ==> #[trigger] is_steady(chain.filters(), i),
        chain.seals(payload, sealed),
    ensures
        !chain.declines(payload, e),
{
    let filters = chain.filters();
    if chain.declines(payload, e) {
        let (i, s) = choose|i: int, mid: Seq<u8>| #[trigger] stops_at(filters, payload, i, mid, e);
        let mid = winding_passes(filters, filters.len() as int, i, payload, sealed.skip(HEADER_LEN as int));
        winding_is_steady(filters, i, payload, mid, s);
    }
}

/// A value sealed under one chain id is refused by every chain with another.
pub proof fn another_chain_refuses(writer: FilterChain, reader: FilterChain, payload: Seq<u8>, sealed: Seq<u8>)
    requires
        writer.seals(payload, sealed),
        writer.id_spec() != reader.id_spec(),
    ensures
        reader.opened(sealed) is None,
{
    assert(header(writer.id_spec())[5] == writer.id_spec());
    assert(header(reader.id_spec())[5] == reader.id_spec());
}

/// An envelope is never empty, so an empty value never looks like no value.
pub proof fn a_sealed_value_is_not_empty(chain: FilterChain, payload: Seq<u8>, sealed: Seq<u8>)
    requires
        chain.seals(payload, sealed),
    ensures
        sealed.len() >= HEADER_LEN,
{
}

} // verus!
