use liteway::addr::{IpAddr, SocketAddr};
use liteway::frag::{
    fragment_message, fragment_message_to_peer, fragment_message_with, FeedResult,
    FragmentAssembler, FragmentError, MAX_PENDING_MESSAGES_PER_SOURCE, MIN_DATAGRAM,
};
use liteway::handshake::seal_handshake;
use liteway::packet::{network_header, PACKET_OVERHEAD};

const KEY: [u8; 32] = [0x17; 32];
const SECOND: u64 = 1_000_000_000;

fn source(port: u16) -> SocketAddr {
    SocketAddr { ip: IpAddr::V4(0x7f000001), port, flowinfo: 0, scope_id: 0 }
}

fn is_buffered(r: FeedResult) -> bool {
    matches!(r, FeedResult::Buffered)
}

fn message(len: usize) -> Vec<u8> {
    (0..len).map(|i| (i * 7 % 251) as u8).collect()
}

#[test]
fn fragments_come_together_in_any_order() {
    let data = message(1000);
    let packets = fragment_message_with(&data, &KEY, PACKET_OVERHEAD + 90, 5, 77).unwrap();
    assert_eq!(packets.len(), 12);
    let mut assembler = FragmentAssembler::new();
    let order = [11, 3, 0, 7, 1, 2, 10, 4, 9, 5, 8, 6];
    for (n, i) in order.iter().enumerate() {
        assert!(packets[*i].len() <= PACKET_OVERHEAD + 90);
        match assembler.feed(source(1), &packets[*i], &KEY, n as u64) {
            FeedResult::Complete(m) => {
                assert_eq!(n, 11);
                assert_eq!(m, data);
            }
            FeedResult::Buffered => assert!(n < 11),
            FeedResult::NotFragment => panic!("a fragment must be recognised"),
        }
    }
    assert!(is_buffered(assembler.feed(source(1), &packets[0], &KEY, 0)));
}

#[test]
fn messages_of_two_sources_are_kept_apart() {
    let data = message(20);
    let packets = fragment_message_with(&data, &KEY, PACKET_OVERHEAD + 10, 0, 9).unwrap();
    let mut assembler = FragmentAssembler::new();
    assert!(is_buffered(assembler.feed(source(1), &packets[0], &KEY, 0)));
    assert!(is_buffered(assembler.feed(source(2), &packets[1], &KEY, 0)));
    assert!(is_buffered(assembler.feed(source(1), &packets[0], &KEY, 0)));
    match assembler.feed(source(1), &packets[1], &KEY, 0) {
        FeedResult::Complete(m) => assert_eq!(m, data),
        _ => panic!("the message must be complete"),
    }
}

#[test]
fn an_empty_message_is_one_fragment() {
    let packets = fragment_message(&[], &KEY, MIN_DATAGRAM).unwrap();
    assert_eq!(packets.len(), 1);
    let header = network_header(&packets[0], &KEY).unwrap();
    assert_eq!((header.frag_index, header.frag_total), (0, 1));
    let mut assembler = FragmentAssembler::default();
    match assembler.feed(source(1), &packets[0], &KEY, 0) {
        FeedResult::Complete(m) => assert!(m.is_empty()),
        _ => panic!("the message must be complete"),
    }
}

#[test]
fn messages_that_cannot_be_split_are_refused() {
    assert_eq!(
        fragment_message(b"x", &KEY, MIN_DATAGRAM - 1).err(),
        Some(FragmentError::DatagramTooSmall)
    );
    assert_eq!(
        fragment_message(&message(256), &KEY, MIN_DATAGRAM).err(),
        Some(FragmentError::TooManyChunks)
    );
    assert_eq!(fragment_message(&message(255), &KEY, MIN_DATAGRAM).unwrap().len(), 255);
}

#[test]
fn fragments_name_the_peer_they_are_for() {
    let packets = fragment_message_to_peer(&message(30), &KEY, PACKET_OVERHEAD + 20, 0xabcdef01).unwrap();
    for (i, p) in packets.iter().enumerate() {
        let header = network_header(p, &KEY).unwrap();
        assert_eq!(header.dst_peer_id, 0xabcdef01);
        assert_eq!((header.frag_index as usize, header.frag_total), (i, 2));
    }
}

#[test]
fn other_packets_are_not_fragments() {
    let mut assembler = FragmentAssembler::new();
    let other = seal_handshake(&KEY, &[0x11, 1, 2]);
    assert!(matches!(assembler.feed(source(1), &other, &KEY, 0), FeedResult::NotFragment));
    assert!(matches!(assembler.feed(source(1), b"noise", &KEY, 0), FeedResult::NotFragment));
    let fragment = fragment_message(b"x", &KEY, 100).unwrap();
    assert!(matches!(assembler.feed(source(1), &fragment[0], &[1; 32], 0), FeedResult::NotFragment));
}

#[test]
fn old_messages_are_given_up() {
    let data = message(20);
    let packets = fragment_message_with(&data, &KEY, PACKET_OVERHEAD + 10, 0, 9).unwrap();
    let mut assembler = FragmentAssembler::new();
    assert!(is_buffered(assembler.feed(source(1), &packets[0], &KEY, SECOND)));
    assembler.cleanup(31 * SECOND - 1);
    assert!(matches!(assembler.feed(source(1), &packets[1], &KEY, 0), FeedResult::Complete(_)));
    assert!(is_buffered(assembler.feed(source(1), &packets[0], &KEY, SECOND)));
    assembler.cleanup(31 * SECOND);
    assert!(is_buffered(assembler.feed(source(1), &packets[1], &KEY, 0)));
}

#[test]
fn a_change_of_the_total_drops_the_message() {
    let mut assembler = FragmentAssembler::new();
    let two = fragment_message_with(&message(20), &KEY, PACKET_OVERHEAD + 10, 0, 9).unwrap();
    let three = fragment_message_with(&message(30), &KEY, PACKET_OVERHEAD + 10, 0, 9).unwrap();
    assert!(is_buffered(assembler.feed(source(1), &two[0], &KEY, 0)));
    assert!(is_buffered(assembler.feed(source(1), &three[0], &KEY, 0)));
    assert!(is_buffered(assembler.feed(source(1), &two[1], &KEY, 0)));
}

#[test]
fn a_source_has_a_limited_number_of_messages() {
    let mut assembler = FragmentAssembler::new();
    let mut all = Vec::new();
    for id in 0..MAX_PENDING_MESSAGES_PER_SOURCE as u32 + 1 {
        let packets = fragment_message_with(&message(20), &KEY, PACKET_OVERHEAD + 10, 0, id).unwrap();
        assert!(is_buffered(assembler.feed(source(1), &packets[0], &KEY, 0)));
        all.push(packets);
    }
    let last = all.len() - 1;
    assert!(is_buffered(assembler.feed(source(1), &all[last][1], &KEY, 0)));
    assert!(matches!(assembler.feed(source(1), &all[last - 1][1], &KEY, 0), FeedResult::Complete(_)));
    assert!(is_buffered(assembler.feed(source(2), &all[last][0], &KEY, 0)));
    assert!(matches!(assembler.feed(source(2), &all[last][1], &KEY, 0), FeedResult::Complete(_)));
}

#[test]
fn a_source_has_a_limited_number_of_bytes() {
    let mut assembler = FragmentAssembler::new();
    let big = message(400_000);
    let first = fragment_message_with(&big, &KEY, PACKET_OVERHEAD + 200_000, 0, 1).unwrap();
    let second = fragment_message_with(&big, &KEY, PACKET_OVERHEAD + 390_000, 0, 2).unwrap();
    assert!(is_buffered(assembler.feed(source(1), &first[0], &KEY, 0)));
    assert!(is_buffered(assembler.feed(source(1), &second[0], &KEY, 0)));
    assert!(is_buffered(assembler.feed(source(1), &second[1], &KEY, 0)));
    assert!(matches!(assembler.feed(source(1), &first[1], &KEY, 0), FeedResult::Complete(_)));
    match assembler.feed(source(1), &second[0], &KEY, 0) {
        FeedResult::Complete(m) => assert_eq!(m, big),
        _ => panic!("there is room again"),
    }
}

#[test]
fn a_message_has_a_limited_size() {
    let mut assembler = FragmentAssembler::new();
    let big = message(600_000);
    let packets = fragment_message_with(&big, &KEY, PACKET_OVERHEAD + 300_000, 0, 1).unwrap();
    assert!(is_buffered(assembler.feed(source(1), &packets[0], &KEY, 0)));
    assert!(is_buffered(assembler.feed(source(1), &packets[1], &KEY, 0)));
    assert!(is_buffered(assembler.feed(source(1), &packets[0], &KEY, 0)));
}
