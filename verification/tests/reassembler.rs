use packet_inspector::ipv4::reassembler::Assorter;

// Builds a test IPv4 packet: fixed 20-byte header followed by `data`.
fn create_test_packet(id: u16, offset: u16, is_last: bool, data: &[u8]) -> Vec<u8> {
    let mut flags: u8 = 0;
    // an unfragmented datagram carries the don't-fragment flag
    if offset == 0 && is_last {
        flags |= 0x40;
    }
    // anything but the last fragment carries the more-fragments flag
    if !is_last {
        flags |= 0x20;
    }

    let offset_high = (offset >> 8) as u8 & 0x1F;
    let offset_low = offset as u8;

    let mut packet = vec![
        0x45,
        0x00, // version, header length, ToS
        0x00,
        0x14 + data.len() as u8, // total length (header + data)
        (id >> 8) as u8,
        id as u8, // identifier
        flags | offset_high,
        offset_low, // flags and fragment offset
        0x40,
        0x11, // TTL, protocol (UDP)
        0x00,
        0x00, // header checksum (not computed)
        192,
        168,
        1,
        1, // source address
        192,
        168,
        1,
        2, // destination address
    ];

    packet.extend_from_slice(data);
    packet
}

#[test]
fn test_single_packet() {
    let mut assorter = Assorter::new();
    let data = b"Hello, this is a single packet!";
    let packet = create_test_packet(1234, 0, true, data);

    let result = assorter.add_and_check(&packet);

    assert!(result.is_some());
    assert_eq!(result.unwrap().1, data);
}

#[test]
fn test_multiple_fragments() {
    let mut assorter = Assorter::new();
    let id = 5678;

    let data1 = b"First fragment of the message. ";
    let packet1 = create_test_packet(id, 0, false, data1);

    let data2 = b"This is the last fragment.";
    let packet2 = create_test_packet(id, data1.len() as u16, true, data2);

    let result1 = assorter.add_and_check(&packet1);
    assert!(result1.is_none());

    let result2 = assorter.add_and_check(&packet2);
    assert!(result2.is_some());

    let expected_data = [&data1[..], &data2[..]].concat();
    assert_eq!(result2.unwrap().1, expected_data);
}

#[test]
fn test_fragments_out_of_order() {
    let mut assorter = Assorter::new();
    let id = 9012;

    let data1 = b"First part. ";
    let packet1 = create_test_packet(id, 0, false, data1);

    let data2 = b"Middle part. ";
    let packet2 = create_test_packet(id, data1.len() as u16, false, data2);

    let data3 = b"Last part.";
    let offset3 = data1.len() as u16 + data2.len() as u16;
    let packet3 = create_test_packet(id, offset3, true, data3);

    let result3 = assorter.add_and_check(&packet3);
    assert!(result3.is_none());

    let result1 = assorter.add_and_check(&packet1);
    assert!(result1.is_none());

    let result2 = assorter.add_and_check(&packet2);
    assert!(result2.is_some());

    let expected_data = [&data1[..], &data2[..], &data3[..]].concat();
    assert_eq!(result2.unwrap().1, expected_data);
}

#[test]
fn test_multiple_ids() {
    let mut assorter = Assorter::new();

    let id1 = 1111;
    let data1_1 = b"First message, first part. ";
    let packet1_1 = create_test_packet(id1, 0, false, data1_1);
    let data1_2 = b"First message, last part.";
    let packet1_2 = create_test_packet(id1, data1_1.len() as u16, true, data1_2);

    let id2 = 2222;
    let data2_1 = b"Second message, only part.";
    let packet2_1 = create_test_packet(id2, 0, true, data2_1);

    let result = assorter.add_and_check(&packet1_1);
    assert!(result.is_none());

    let result = assorter.add_and_check(&packet2_1);
    assert!(result.is_some());
    assert_eq!(result.unwrap().1, data2_1);

    let result = assorter.add_and_check(&packet1_2);
    assert!(result.is_some());
    let expected_data = [&data1_1[..], &data1_2[..]].concat();
    assert_eq!(result.unwrap().1, expected_data);
}

#[test]
fn test_empty_single_packet() {
    let mut assorter = Assorter::new();
    let packet = create_test_packet(7, 0, true, b"");

    let result = assorter.add_and_check(&packet);

    assert!(result.is_some());
    assert_eq!(result.unwrap().1, b"");
}

#[test]
fn test_terminal_fragment_twice() {
    // The terminal fragment arrives twice before the gap closes: the repeat
    // changes neither the completion point nor the reassembled bytes.
    let mut assorter = Assorter::new();
    let id = 4242;
    let first = b"front ";
    let last = b"back";

    let packet_last = create_test_packet(id, first.len() as u16, true, last);
    assert!(assorter.add_and_check(&packet_last).is_none());
    assert!(assorter.add_and_check(&packet_last).is_none());

    let packet_first = create_test_packet(id, 0, false, first);
    let result = assorter.add_and_check(&packet_first);
    let expected = [&first[..], &last[..]].concat();
    assert_eq!(result.unwrap().1, expected);
}

#[test]
fn test_id_reused_after_completion() {
    // Once an identifier completes and is flushed, the same identifier
    // starts an entirely new reassembly with no residue of the old bytes.
    let mut assorter = Assorter::new();
    let id = 99;

    let r = assorter.add_and_check(&create_test_packet(id, 0, true, b"first datagram"));
    assert_eq!(r.unwrap().1, b"first datagram");

    let r2 = assorter.add_and_check(&create_test_packet(id, 0, false, b"second "));
    assert!(r2.is_none());

    let r3 = assorter.add_and_check(&create_test_packet(id, 7, true, b"datagram"));
    assert_eq!(r3.unwrap().1, b"second datagram");
}

#[test]
fn test_gap_never_closes() {
    // A datagram whose coverage never reaches the terminal offset is never
    // emitted.
    let mut assorter = Assorter::new();
    let id = 5;

    assert!(assorter.add_and_check(&create_test_packet(id, 10, true, b"tail")).is_none());
    assert!(assorter.add_and_check(&create_test_packet(id, 0, false, b"abc")).is_none());
    // bytes 3..10 are still missing: the walk stops at offset 3
    assert!(assorter.add_and_check(&create_test_packet(id, 4, false, b"def")).is_none());
}
