use vstd::prelude::*;

verus! {

/// Upper-layer protocol tag carried in an Ethernet frame's type field.
#[derive(Debug, PartialEq, Eq, Structural)]
pub enum Type {
    IPv4,
    IPv6,
    Arp,
    Others,
}

impl Type {
    /// Human-readable name of the frame type.
    pub fn text(&self) -> (s: &'static str)
        ensures
            (match *self {
                Type::IPv4 => s@ == "IPv4"@,
                Type::IPv6 => s@ == "IPv6"@,
                Type::Arp => s@ == "ARP"@,
                Type::Others => s@ == "Other Protocol"@,
            }),
    {
        match self {
            Type::IPv4 => "IPv4",
            Type::IPv6 => "IPv6",
            Type::Arp => "ARP",
            Type::Others => "Other Protocol",
        }
    }
}

/// The 16-bit value packed big-endian into the frame's two type bytes.
pub open spec fn type_value(hi: u8, lo: u8) -> int {
    hi * 256 + lo
}

/// Frame type for a given 16-bit type value.
pub open spec fn type_of(value: int) -> Type {
    if value == 0x0800 {
        Type::IPv4
    } else if value == 0x0806 {
        Type::Arp
    } else if value == 0x86DD {
        Type::IPv6
    } else {
        Type::Others
    }
}

/// Decodes the Ethernet type field from its two big-endian bytes.
pub fn from_byte_array(bytes: &[u8]) -> (t: Type)
    requires
        bytes@.len() >= 2,
    ensures
        t == type_of(type_value(bytes@[0], bytes@[1])),
{
    let value: u16 = (bytes[0] as u16) * 256 + (bytes[1] as u16);
    if value == 0x0800 {
        Type::IPv4
    } else if value == 0x0806 {
        Type::Arp
    } else if value == 0x86DD {
        Type::IPv6
    } else {
        Type::Others
    }
}

} // verus!
