use packet_inspector::ipv4::header::{Header, Ipv4Address, Protocol};
use packet_inspector::ipv4::reassembler::Reassembler;

fn mk_header(offset: u16, is_last: bool) -> Header {
    Header {
        id: 1,
        dont_fragment: false,
        more_fragments: !is_last,
        fragment_offset: offset,
        source_ip: Ipv4Address { octet0: 127, octet1: 0, octet2: 0, octet3: 1 },
        destination_ip: Ipv4Address { octet0: 127, octet1: 0, octet2: 0, octet3: 1 },
        protocol: Protocol::Others,
    }
}

#[test]
fn test_store_walk_and_reassemble() {
    let mut store = Reassembler::new();
    assert!(!store.has_all_neccessary_fragments());

    store.insert(&mk_header(0, false), b"hello ".to_vec());
    // no terminal fragment yet
    assert!(!store.has_all_neccessary_fragments());

    store.insert(&mk_header(6, true), b"world".to_vec());
    assert!(store.has_all_neccessary_fragments());
    assert_eq!(store.reassemble().unwrap(), b"hello world");
}

#[test]
fn test_store_overwrite_same_offset() {
    // A later fragment at an already-stored offset wins.
    let mut store = Reassembler::new();
    store.insert(&mk_header(0, false), b"xxxx".to_vec());
    store.insert(&mk_header(0, false), b"yyyy".to_vec());
    store.insert(&mk_header(4, true), b"zz".to_vec());
    assert!(store.has_all_neccessary_fragments());
    assert_eq!(store.reassemble().unwrap(), b"yyyyzz");
}

#[test]
fn test_store_misaligned_fragment_leaves_gap() {
    // A fragment boundary that does not land on a stored offset is a gap.
    let mut store = Reassembler::new();
    store.insert(&mk_header(0, false), b"abc".to_vec());
    store.insert(&mk_header(5, true), b"fg".to_vec());
    assert!(!store.has_all_neccessary_fragments());
}

#[test]
fn test_store_stray_fragment_is_concatenated() {
    // Reassembly concatenates every stored fragment in offset order, a stray
    // fragment beyond the terminal offset included.
    let mut store = Reassembler::new();
    store.insert(&mk_header(0, false), b"ab".to_vec());
    store.insert(&mk_header(100, false), b"stray".to_vec());
    store.insert(&mk_header(2, true), b"cd".to_vec());
    assert!(store.has_all_neccessary_fragments());
    assert_eq!(store.reassemble().unwrap(), b"abcdstray");
}
