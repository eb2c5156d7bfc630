use packet_inspector::ipv4::header::{Ipv4Address, Protocol};
use packet_inspector::ipv4::parser::{parse, parse_protocol};

#[test]
fn test_parse_header_fields() {
    let mut packet = vec![
        0x45, 0x00, // version, header length, ToS
        0x00, 0x18, // total length
        0x12, 0x34, // identifier 0x1234
        0x21, 0x2C, // more-fragments flag, fragment offset 0x12C
        0x40, 6, // TTL, protocol (TCP)
        0x00, 0x00, // header checksum
        10, 0, 0, 1, // source address
        10, 0, 0, 2, // destination address
    ];
    packet.extend_from_slice(b"data");

    let (header, rest) = parse(&packet);
    assert_eq!(header.id, 0x1234);
    assert!(!header.dont_fragment);
    assert!(header.more_fragments);
    assert_eq!(header.fragment_offset, 300);
    assert_eq!(header.source_ip, Ipv4Address { octet0: 10, octet1: 0, octet2: 0, octet3: 1 });
    assert_eq!(
        header.destination_ip,
        Ipv4Address { octet0: 10, octet1: 0, octet2: 0, octet3: 2 }
    );
    assert_eq!(header.protocol, Protocol::Tcp);
    assert!(!header.is_last_fragment());
    assert_eq!(rest, b"data");
}

#[test]
fn test_parse_dont_fragment_is_last() {
    let packet = vec![
        0x45, 0x00, 0x00, 0x14, 0xAB, 0xCD, 0x40, 0x00, 0x40, 17, 0x00, 0x00, 192, 168, 0, 1,
        192, 168, 0, 2,
    ];
    let (header, rest) = parse(&packet);
    assert_eq!(header.id, 0xABCD);
    assert!(header.dont_fragment);
    assert!(!header.more_fragments);
    assert_eq!(header.fragment_offset, 0);
    assert_eq!(header.protocol, Protocol::Udp);
    assert!(header.is_last_fragment());
    assert!(rest.is_empty());
}

#[test]
fn test_parse_protocol_tags() {
    assert_eq!(parse_protocol(&6), Protocol::Tcp);
    assert_eq!(parse_protocol(&17), Protocol::Udp);
    assert_eq!(parse_protocol(&1), Protocol::Others);
}
