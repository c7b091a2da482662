//! Messages as plain data, with their wire sizes.

use crate::simulator::binary64::Double;
use crate::simulator::counter;
use crate::simulator::counter::add_usize;
use crate::simulator::network;
use crate::simulator::network::{payload_bytes, WireSized};
use crate::simulator::replica::Element;
use vstd::prelude::*;

verus! {

#[derive(Debug)]
pub enum ProtocolMsg {
    Elements(Vec<Element>),
    RibltSketch { symbols: usize, digests: Vec<u64>, elements: Vec<Element> },
    BloomFilter { bit_len: usize, digests: Vec<u64>, false_positive_rate: Double },
    RatelessBloom { byte_len: usize, digests: Vec<u64>, bloom_bits: usize },
}

/// Eight bytes for each symbol.
pub open spec fn symbol_bytes(symbols: usize) -> u64 {
    counter::wrap_u64(symbols * 8)
}

/// The bits rounded up to bytes, a length header and a seed.
pub open spec fn filter_bytes(bit_len: usize) -> u64 {
    let bytes = counter::wrap_usize(bit_len + 7) / 8;
    counter::wrap_usize(counter::wrap_usize(bytes + network::word_bytes()) + 8) as u64
}

impl WireSized for ProtocolMsg {
    open spec fn obeys_costs() -> bool {
        true
    }

    /// Only elements carry payload.
    open spec fn state_cost(&self) -> u64 {
        match self {
            ProtocolMsg::Elements(els) => network::payload(els@),
            _ => 0,
        }
    }

    /// Sketches and filters are pure metadata.
    open spec fn metadata_cost(&self) -> u64 {
        match self {
            ProtocolMsg::Elements(_) => 0,
            ProtocolMsg::RibltSketch { symbols, .. } => symbol_bytes(*symbols),
            ProtocolMsg::BloomFilter { bit_len, .. } => filter_bytes(*bit_len),
            ProtocolMsg::RatelessBloom { byte_len, .. } => *byte_len as u64,
        }
    }

    fn state_bytes(&self) -> u64 {
        match self {
            ProtocolMsg::Elements(els) => payload_bytes(els),
            _ => 0,
        }
    }

    fn metadata_bytes(&self) -> u64 {
        match self {
            ProtocolMsg::Elements(_) => 0,
            ProtocolMsg::RibltSketch { symbols, .. } => (*symbols as u64).wrapping_mul(8),
            ProtocolMsg::BloomFilter { bit_len, .. } => {
                let bytes: usize = add_usize(*bit_len, 7) / 8;
                add_usize(add_usize(bytes, (usize::BITS / 8) as usize), 8) as u64
            },
            ProtocolMsg::RatelessBloom { byte_len, .. } => *byte_len as u64,
        }
    }
}

/// A message costs what it holds. Elements are billed one by one, with eight bytes for the
/// digest of each, and are no metadata; a sketch costs eight bytes for each symbol, a filter a
/// byte for every eight of its bits or fewer, a machine word and eight bytes, and a growing
/// filter its bytes. The latter three carry no payload.
pub proof fn lemma_costs(
    before: ProtocolMsg,
    after: ProtocolMsg,
    e: Element,
    sketch: ProtocolMsg,
    filter: ProtocolMsg,
    slices: ProtocolMsg,
)
    requires
        before is Elements,
        after is Elements,
        after->Elements_0@ == before->Elements_0@.push(e),
        e.payload_len + 8 <= usize::MAX,
        before.state_cost() + e.payload_len + 8 <= u64::MAX,
        sketch is RibltSketch,
        sketch->symbols * 8 <= u64::MAX,
        filter is BloomFilter,
        filter->bit_len + 7 <= usize::MAX,
        slices is RatelessBloom,
    ensures
        before->Elements_0@.len() == 0 ==> before.state_cost() == 0,
        after.state_cost() == before.state_cost() + e.payload_len + 8,
        after.metadata_cost() == 0,
        sketch.metadata_cost() == 8 * sketch->symbols,
        ({
            let bytes = filter.metadata_cost() - usize::BITS / 8 - 8;
            8 * bytes - 8 < filter->bit_len <= 8 * bytes
        }),
        slices.metadata_cost() == slices->byte_len,
        sketch.state_cost() == 0,
        filter.state_cost() == 0,
        slices.state_cost() == 0,
{
    let els = before->Elements_0@;
    assert(els.push(e).drop_last() =~= els);
    counter::lemma_wrap_small(8 + e.payload_len);
    assert(e.wire() == 8 + e.payload_len);
    let bits = filter->bit_len;
    counter::lemma_wrap_small(bits + 7);
    let bytes = (bits + 7) / 8;
    counter::lemma_wrap_small(bytes + network::word_bytes());
    counter::lemma_wrap_small(bytes + network::word_bytes() + 8);
}

} // verus!
