//! The link-layer header of a received frame, as far as the counting program
//! reads it.

use vstd::prelude::*;

verus! {

/// The length of the link-layer header.
pub const ETH_HEADER_LEN: usize = 14;

/// The place of the source hardware address within the header.
pub const SOURCE_ADDRESS_OFFSET: usize = 6;

/// A read that would go past the end of the packet buffer.
#[derive(Clone, Copy, Debug, PartialEq, Eq, Structural)]
pub struct BoundsError {}

/// The size of the Ethernet header, `network_types::eth::EthHdr::LEN`: two
/// hardware addresses of six bytes each and a two-byte protocol tag.
#[verifier::external_body]
fn ethernet_header_len() -> (len: usize)
    ensures
        len == ETH_HEADER_LEN,
{
    network_types::eth::EthHdr::LEN
}

/// Whether `len` bytes can be read from a buffer of `size` bytes at `offset`.
pub open spec fn in_bounds(size: nat, offset: nat, len: nat) -> bool {
    offset + len <= size
}

/// Checks that `len` bytes can be read from `data` at `offset`, and returns
/// the place where the read starts.
pub fn ptr_at(data: &[u8], offset: usize, len: usize) -> (r: Result<usize, BoundsError>)
    ensures
        match r {
            Ok(start) => in_bounds(data@.len(), offset as nat, len as nat) && start == offset,
            Err(_) => !in_bounds(data@.len(), offset as nat, len as nat),
        },
{
    if offset > data.len() || len > data.len() - offset {
        Err(BoundsError {  })
    } else {
        Ok(offset)
    }
}

/// The source hardware address in a frame that holds a whole header.
pub open spec fn source_address_of(data: Seq<u8>) -> [u8; 6] {
    choose|mac: [u8; 6]|
        mac@ == data.subrange(
            SOURCE_ADDRESS_OFFSET as int,
            SOURCE_ADDRESS_OFFSET as int + 6,
        )
}

/// Reads the source hardware address of a frame. A buffer shorter than the
/// link-layer header is refused without being read.
pub fn source_address(data: &[u8]) -> (r: Result<[u8; 6], BoundsError>)
    ensures
        match r {
            Ok(mac) => data@.len() >= ETH_HEADER_LEN && mac == source_address_of(data@) && mac@
                == data@.subrange(SOURCE_ADDRESS_OFFSET as int, SOURCE_ADDRESS_OFFSET as int + 6),
            Err(_) => data@.len() < ETH_HEADER_LEN,
        },
{
    match ptr_at(data, 0, ethernet_header_len()) {
        Err(e) => Err(e),
        Ok(header) => {
            let at = header + SOURCE_ADDRESS_OFFSET;
            let mac = [data[at], data[at + 1], data[at + 2], data[at + 3], data[at + 4], data[at
                + 5]];
            proof {
                let bytes = data@.subrange(
                    SOURCE_ADDRESS_OFFSET as int,
                    SOURCE_ADDRESS_OFFSET as int + 6,
                );
                assert(mac@ =~= bytes);
                let chosen = source_address_of(data@);
                assert(chosen@ == bytes);
                assert(mac =~= chosen);
            }
            Ok(mac)
        },
    }
}

} // verus!
