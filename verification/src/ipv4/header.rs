use vstd::prelude::*;

verus! {

/// An IPv4 address held as its four dotted-quad octets.
#[derive(Clone, Copy, Debug, PartialEq, Eq, Structural)]
pub struct Ipv4Address {
    pub octet0: u8,
    pub octet1: u8,
    pub octet2: u8,
    pub octet3: u8,
}

/// Transport protocol tag of an IPv4 datagram.
#[derive(Clone, Copy, Debug, PartialEq, Eq, Structural)]
pub enum Protocol {
    Tcp,
    Udp,
    Others,
}

/// The IPv4 header fields that fragment reassembly reads, decoded from the
/// fixed 20-byte header.
#[derive(Clone, Copy, Debug, PartialEq, Eq, Structural)]
pub struct Header {
    pub id: u16,
    pub dont_fragment: bool,
    pub more_fragments: bool,
    pub fragment_offset: u16,
    pub source_ip: Ipv4Address,
    pub destination_ip: Ipv4Address,
    pub protocol: Protocol,
}

impl Header {
    /// Whether this fragment marks the end of its datagram: either the
    /// datagram was never fragmented, or no more fragments follow.
    pub open spec fn is_last(self) -> bool {
        self.dont_fragment || !self.more_fragments
    }

    /// Executable form of `is_last`.
    pub fn is_last_fragment(&self) -> (r: bool)
        ensures
            r == self.is_last(),
    {
        self.dont_fragment || !self.more_fragments
    }
}

} // verus!
