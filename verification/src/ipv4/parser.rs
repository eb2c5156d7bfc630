use vstd::prelude::*;
use vstd::slice::slice_subrange;
use super::header::{Header, Ipv4Address, Protocol};

verus! {

/// The fixed length of an IPv4 header, in bytes.
pub const HEADER_LEN: usize = 20;

/// The 16-bit value packed big-endian into two header bytes.
pub open spec fn be_u16(hi: u8, lo: u8) -> u16 {
    (hi * 256 + lo) as u16
}

/// The don't-fragment control bit of the flags byte.
pub open spec fn flag_dont_fragment(flags: u8) -> bool {
    flags & 0x40 != 0
}

/// The more-fragments control bit of the flags byte.
pub open spec fn flag_more_fragments(flags: u8) -> bool {
    flags & 0x20 != 0
}

/// The fragment offset: the low five bits of the flags byte followed by the
/// next whole byte.
pub open spec fn frag_offset(flags: u8, lo: u8) -> u16 {
    ((flags & 0x1f) * 256 + lo) as u16
}

/// Transport protocol tag for a protocol number.
pub open spec fn protocol_of(value: u8) -> Protocol {
    if value == 6 {
        Protocol::Tcp
    } else if value == 17 {
        Protocol::Udp
    } else {
        Protocol::Others
    }
}

/// The header fields spelled out by the first 20 bytes of a buffer.
pub open spec fn header_of(b: Seq<u8>) -> Header {
    Header {
        id: be_u16(b[4], b[5]),
        dont_fragment: flag_dont_fragment(b[6]),
        more_fragments: flag_more_fragments(b[6]),
        fragment_offset: frag_offset(b[6], b[7]),
        source_ip: Ipv4Address { octet0: b[12], octet1: b[13], octet2: b[14], octet3: b[15] },
        destination_ip: Ipv4Address { octet0: b[16], octet1: b[17], octet2: b[18], octet3: b[19] },
        protocol: protocol_of(b[9]),
    }
}

/// Maps a protocol number to its transport protocol tag.
pub fn parse_protocol(payload: &u8) -> (p: Protocol)
    ensures
        p == protocol_of(*payload),
{
    match *payload {
        6 => Protocol::Tcp,
        17 => Protocol::Udp,
        _ => Protocol::Others,
    }
}

/// Decodes the fixed IPv4 header from the front of `payload` and hands back
/// the decoded fields together with the remaining bytes, the fragment's data.
pub fn parse(payload: &[u8]) -> (r: (Header, &[u8]))
    requires
        payload@.len() >= HEADER_LEN,
    ensures
        r.0 == header_of(payload@),
        r.1@ == payload@.skip(HEADER_LEN as int),
{
    let flags = payload[6];
    proof {
        assert(flags & 0x1f < 32) by (bit_vector);
    }
    let header = Header {
        id: (payload[4] as u16) * 256 + (payload[5] as u16),
        dont_fragment: flags & 0x40 != 0,
        more_fragments: flags & 0x20 != 0,
        fragment_offset: ((flags & 0x1f) as u16) * 256 + (payload[7] as u16),
        source_ip: Ipv4Address {
            octet0: payload[12],
            octet1: payload[13],
            octet2: payload[14],
            octet3: payload[15],
        },
        destination_ip: Ipv4Address {
            octet0: payload[16],
            octet1: payload[17],
            octet2: payload[18],
            octet3: payload[19],
        },
        protocol: parse_protocol(&payload[9]),
    };
    let rest = slice_subrange(payload, HEADER_LEN, payload.len());
    proof {
        assert(payload@.subrange(HEADER_LEN as int, payload@.len() as int) =~= payload@.skip(
            HEADER_LEN as int,
        ));
    }
    (header, rest)
}

} // verus!
