use plenty_of_fluids::message::Message;
use plenty_of_fluids::parser::{TorrentMetadata, TorrentMetadataInfo};
use plenty_of_fluids::peer_connection::{
    build_handshake, bytes_to_u32, connect_to_peers, read_n, read_n_to_buf, receive_handshake,
    receive_message, u32_to_bytes, validate_handshake, Action, ConnectAttempt, ConnectOutcome,
    Conversation, ConversationError, FrameStep, Handshake, HandshakeError, HandshakeStep,
    PeerConnection, Phase, CONNECT_TIMEOUT_SECS,
};
use plenty_of_fluids::split_stream::{ConnectionManager, NextMessage};
use plenty_of_fluids::tracker::Peer;

fn info_hash() -> Vec<u8> {
    (1u8..=20).collect()
}

fn metadata() -> TorrentMetadata {
    TorrentMetadata {
        info: TorrentMetadataInfo {
            pieces: Vec::new(),
            piece_length: 512,
            length: 1000,
            name: "test.txt".to_string(),
        },
        info_hash: info_hash(),
        announce: "http://tracker.example.com/announce".to_string(),
    }
}

fn handshake_from(peer_hash: &[u8]) -> Vec<u8> {
    let mut bytes = vec![19u8];
    bytes.extend_from_slice(b"BitTorrent protocol");
    bytes.extend_from_slice(&[0u8; 8]);
    bytes.extend_from_slice(peer_hash);
    bytes.extend_from_slice(b"-XX0001-abcdefghijkl");
    bytes
}

#[test]
fn handshake_layout() {
    let handshake = Handshake {
        pstr: "BitTorrent protocol".to_string(),
        info_hash: info_hash(),
        peer_id: "plenty-of-fluid00001".to_string(),
    };
    let bytes = handshake.to_bytes();
    assert_eq!(bytes.len(), 68);
    assert_eq!(bytes[0], 19);
    assert_eq!(&bytes[1..20], b"BitTorrent protocol");
    assert_eq!(&bytes[20..28], &[0u8; 8]);
    assert_eq!(&bytes[28..48], &info_hash()[..]);
    assert_eq!(&bytes[48..68], b"plenty-of-fluid00001");
}

#[test]
fn handshake_with_another_protocol_name() {
    let handshake =
        Handshake { pstr: "ab".to_string(), info_hash: vec![9; 20], peer_id: "p".to_string() };
    let mut expected = vec![2u8, b'a', b'b'];
    expected.extend_from_slice(&[0u8; 8]);
    expected.extend_from_slice(&[9u8; 20]);
    expected.push(b'p');
    assert_eq!(handshake.to_bytes(), expected);
}

#[test]
fn build_handshake_uses_the_protocol_name_and_the_identifier() {
    let bytes = build_handshake(&metadata(), "plenty-of-fluid00001");
    let expected = Handshake {
        pstr: "BitTorrent protocol".to_string(),
        info_hash: info_hash(),
        peer_id: "plenty-of-fluid00001".to_string(),
    }
    .to_bytes();
    assert_eq!(bytes, expected);
    assert_eq!(bytes.len(), 49 + 19);
}

#[test]
fn own_handshake_is_accepted() {
    let bytes = build_handshake(&metadata(), "plenty-of-fluid00001");
    assert_eq!(validate_handshake(&bytes, &info_hash()), Ok(()));
    assert_eq!(receive_handshake(&bytes, &info_hash()), HandshakeStep::Accepted(68));
}

#[test]
fn handshake_with_another_identifier_is_rejected() {
    let mut other = info_hash();
    other[19] ^= 1;
    let bytes = handshake_from(&other);
    assert_eq!(validate_handshake(&bytes, &info_hash()), Err(HandshakeError::IdentifierMismatch));
    // every single differing byte of the identifier is noticed
    for i in 0..20 {
        let mut other = info_hash();
        other[i] = other[i].wrapping_add(1);
        assert_eq!(
            validate_handshake(&handshake_from(&other), &info_hash()),
            Err(HandshakeError::IdentifierMismatch)
        );
    }
}

#[test]
fn other_bytes_of_the_handshake_do_not_matter() {
    let mut bytes = vec![3u8];
    bytes.extend_from_slice(b"xyz");
    bytes.extend_from_slice(&[0xffu8; 8]);
    bytes.extend_from_slice(&info_hash());
    bytes.extend_from_slice(&[0u8; 20]);
    assert_eq!(validate_handshake(&bytes, &info_hash()), Ok(()));
    assert_eq!(receive_handshake(&bytes, &info_hash()), HandshakeStep::Accepted(52));
}

#[test]
fn handshake_cut_short_is_a_closed_connection() {
    let bytes = handshake_from(&info_hash());
    assert_eq!(validate_handshake(&[], &info_hash()), Err(HandshakeError::ConnectionClosed));
    for len in [1usize, 10, 20, 28, 47, 48, 67] {
        assert_eq!(
            validate_handshake(&bytes[..len], &info_hash()),
            Err(HandshakeError::ConnectionClosed)
        );
        assert_eq!(receive_handshake(&bytes[..len], &info_hash()), HandshakeStep::NeedMore);
    }
}

#[test]
fn mismatch_is_seen_before_the_peer_id_arrives() {
    let bytes = handshake_from(&[7u8; 20]);
    assert_eq!(receive_handshake(&bytes[..48], &info_hash()), HandshakeStep::Rejected);
    assert_eq!(
        validate_handshake(&bytes[..48], &info_hash()),
        Err(HandshakeError::IdentifierMismatch)
    );
}

#[test]
fn bytes_to_u32_reads_big_endian() {
    assert_eq!(bytes_to_u32(&[0, 0, 0, 0]), 0);
    assert_eq!(bytes_to_u32(&[0, 0, 0, 1]), 1);
    assert_eq!(bytes_to_u32(&[0, 0, 1, 0]), 256);
    assert_eq!(bytes_to_u32(&[1, 2, 3, 4]), 16909060);
    assert_eq!(bytes_to_u32(&[255, 255, 255, 255]), u32::MAX);
    assert_eq!(bytes_to_u32(&[0, 0, 0, 5, 9, 9]), 5);
}

#[test]
fn u32_to_bytes_writes_big_endian() {
    assert_eq!(u32_to_bytes(0), [0, 0, 0, 0]);
    assert_eq!(u32_to_bytes(16909060), [1, 2, 3, 4]);
    assert_eq!(u32_to_bytes(u32::MAX), [255, 255, 255, 255]);
}

#[test]
fn zero_length_frame_is_a_keep_alive() {
    assert_eq!(receive_message(&[0, 0, 0, 0]), FrameStep::Complete(Message::KeepAlive, 4));
    // nothing behind the length is consumed
    assert_eq!(
        receive_message(&[0, 0, 0, 0, 5, 1, 2]),
        FrameStep::Complete(Message::KeepAlive, 4)
    );
}

#[test]
fn bitfield_frame_carries_its_payload() {
    assert_eq!(
        receive_message(&[0, 0, 0, 4, 5, 0xaa, 0xbb, 0xcc]),
        FrameStep::Complete(Message::Bitfield(vec![0xaa, 0xbb, 0xcc]), 8)
    );
    assert_eq!(
        receive_message(&[0, 0, 0, 1, 5]),
        FrameStep::Complete(Message::Bitfield(Vec::new()), 5)
    );
    let mut frame = vec![0, 0, 1, 1, 5];
    frame.extend_from_slice(&[0x5a; 256]);
    frame.extend_from_slice(&[0, 0, 0, 0]);
    assert_eq!(
        receive_message(&frame),
        FrameStep::Complete(Message::Bitfield(vec![0x5a; 256]), 261)
    );
}

#[test]
fn frames_of_the_other_messages() {
    assert_eq!(receive_message(&[0, 0, 0, 1, 0]), FrameStep::Complete(Message::Choke, 5));
    assert_eq!(receive_message(&[0, 0, 0, 1, 1]), FrameStep::Complete(Message::Unchoke, 5));
    assert_eq!(receive_message(&[0, 0, 0, 1, 2]), FrameStep::Complete(Message::Interested, 5));
    assert_eq!(receive_message(&[0, 0, 0, 1, 3]), FrameStep::Complete(Message::NotInterested, 5));
    assert_eq!(
        receive_message(&[0, 0, 0, 5, 4, 0, 0, 0, 7]),
        FrameStep::Complete(Message::Have, 9)
    );
    assert_eq!(receive_message(&[0, 0, 0, 2, 8, 0]), FrameStep::Complete(Message::Cancel, 6));
}

#[test]
fn incomplete_frames_wait() {
    assert_eq!(receive_message(&[]), FrameStep::NeedMore);
    assert_eq!(receive_message(&[0, 0, 0]), FrameStep::NeedMore);
    assert_eq!(receive_message(&[0, 0, 0, 2, 5]), FrameStep::NeedMore);
    assert_eq!(receive_message(&[255, 255, 255, 255, 5, 1]), FrameStep::NeedMore);
}

#[test]
fn frame_with_unknown_id() {
    assert_eq!(receive_message(&[0, 0, 0, 1, 9]), FrameStep::Unknown(5));
    assert_eq!(receive_message(&[0, 0, 0, 3, 200, 1, 2, 0]), FrameStep::Unknown(7));
}

#[test]
fn to_frame_is_read_back() {
    let messages = vec![
        Message::Choke,
        Message::Unchoke,
        Message::Interested,
        Message::NotInterested,
        Message::Have,
        Message::Bitfield(vec![1, 2, 3]),
        Message::Bitfield(Vec::new()),
        Message::Request,
        Message::Piece,
        Message::Cancel,
        Message::KeepAlive,
    ];
    for message in messages {
        let frame = message.to_frame();
        let len = frame.len();
        assert_eq!(receive_message(&frame), FrameStep::Complete(message.clone(), len));
        let mut longer = frame.clone();
        longer.extend_from_slice(&[1, 2, 3]);
        assert_eq!(receive_message(&longer), FrameStep::Complete(message, len));
    }
    assert_eq!(Message::KeepAlive.to_frame(), vec![0, 0, 0, 0]);
    assert_eq!(Message::Bitfield(vec![7, 8]).to_frame(), vec![0, 0, 0, 3, 5, 7, 8]);
    assert_eq!(Message::Interested.to_frame(), vec![0, 0, 0, 1, 2]);
}

#[test]
fn read_n_takes_a_whole_segment_or_nothing() {
    let mut pending = vec![1u8, 2, 3, 4, 5];
    assert_eq!(read_n(&mut pending, 6), None);
    assert_eq!(pending, vec![1, 2, 3, 4, 5]);
    assert_eq!(read_n(&mut pending, 2), Some(vec![1, 2]));
    assert_eq!(pending, vec![3, 4, 5]);
    assert_eq!(read_n(&mut pending, 0), Some(Vec::new()));
    assert_eq!(read_n(&mut pending, 3), Some(vec![3, 4, 5]));
    assert_eq!(pending, Vec::<u8>::new());
    assert_eq!(read_n(&mut pending, 1), None);
}

#[test]
fn read_n_to_buf_waits_or_fails() {
    let mut pending = vec![1u8, 2, 3];
    assert_eq!(read_n_to_buf(&mut pending, 4, false), Ok(None));
    assert_eq!(pending, vec![1, 2, 3]);
    assert_eq!(read_n_to_buf(&mut pending, 4, true), Err(HandshakeError::ConnectionClosed));
    assert_eq!(read_n_to_buf(&mut pending, 3, true), Ok(Some(vec![1, 2, 3])));
    assert_eq!(read_n_to_buf(&mut pending, 0, true), Ok(Some(Vec::new())));
    assert_eq!(read_n_to_buf(&mut pending, 1, false), Ok(None));
}

#[test]
fn conversation_reads_handshake_then_messages() {
    let mut conversation = Conversation::new(info_hash());
    assert_eq!(conversation.phase(), Phase::Handshaking);
    assert_eq!(conversation.advance(), Action::Wait);
    let mut stream = handshake_from(&info_hash());
    stream.extend_from_slice(&Message::Bitfield(vec![0xff, 0x01]).to_frame());
    stream.extend_from_slice(&Message::KeepAlive.to_frame());
    stream.extend_from_slice(&Message::Unchoke.to_frame());
    conversation.receive(&stream);
    assert_eq!(conversation.advance(), Action::Established);
    assert_eq!(conversation.phase(), Phase::Established);
    assert_eq!(conversation.advance(), Action::Deliver(Message::Bitfield(vec![0xff, 0x01])));
    assert_eq!(conversation.advance(), Action::Deliver(Message::KeepAlive));
    assert_eq!(conversation.advance(), Action::Deliver(Message::Unchoke));
    assert_eq!(conversation.advance(), Action::Wait);
    assert_eq!(conversation.close(), None);
    assert_eq!(conversation.phase(), Phase::Ended);
}

#[test]
fn conversation_gives_the_same_whatever_the_reads() {
    let mut stream = handshake_from(&info_hash());
    stream.extend_from_slice(&Message::Bitfield(vec![1, 2, 3, 4, 5]).to_frame());
    stream.extend_from_slice(&Message::Interested.to_frame());
    for chunk_len in 1..stream.len() {
        let mut conversation = Conversation::new(info_hash());
        let mut actions = Vec::new();
        for chunk in stream.chunks(chunk_len) {
            conversation.receive(chunk);
            loop {
                match conversation.advance() {
                    Action::Wait => break,
                    action => actions.push(action),
                }
            }
        }
        assert_eq!(
            actions,
            vec![
                Action::Established,
                Action::Deliver(Message::Bitfield(vec![1, 2, 3, 4, 5])),
                Action::Deliver(Message::Interested),
            ]
        );
    }
}

#[test]
fn conversation_rejects_another_identifier() {
    let mut conversation = Conversation::new(info_hash());
    conversation.receive(&handshake_from(&[0u8; 20]));
    assert_eq!(conversation.advance(), Action::Fail(ConversationError::IdentifierMismatch));
    assert_eq!(conversation.phase(), Phase::Ended);
    conversation.receive(&[0, 0, 0, 0]);
    assert_eq!(conversation.advance(), Action::Wait);
    assert_eq!(conversation.close(), None);
}

#[test]
fn conversation_ends_on_an_unknown_message() {
    let mut conversation = Conversation::new(info_hash());
    conversation.receive(&handshake_from(&info_hash()));
    assert_eq!(conversation.advance(), Action::Established);
    conversation.receive(&[0, 0, 0, 1, 77]);
    assert_eq!(conversation.advance(), Action::Fail(ConversationError::UnknownMessageType));
    assert_eq!(conversation.phase(), Phase::Ended);
}

#[test]
fn closing_in_the_middle_is_a_failure() {
    let mut conversation = Conversation::new(info_hash());
    conversation.receive(&handshake_from(&info_hash())[..30]);
    assert_eq!(conversation.advance(), Action::Wait);
    assert_eq!(conversation.close(), Some(ConversationError::ConnectionClosed));

    let mut conversation = Conversation::new(info_hash());
    assert_eq!(conversation.close(), Some(ConversationError::ConnectionClosed));

    let mut conversation = Conversation::new(info_hash());
    conversation.receive(&handshake_from(&info_hash()));
    assert_eq!(conversation.advance(), Action::Established);
    conversation.receive(&[0, 0, 0, 9, 5]);
    assert_eq!(conversation.advance(), Action::Wait);
    assert_eq!(conversation.close(), Some(ConversationError::ConnectionClosed));
    assert_eq!(conversation.close(), None);
}

#[test]
fn timeout_is_three_seconds() {
    assert_eq!(CONNECT_TIMEOUT_SECS, 3);
}

#[test]
fn connect_registers_the_peers_that_were_reached() {
    let a = Peer { ip: [10, 0, 0, 1], port: 1 };
    let b = Peer { ip: [10, 0, 0, 2], port: 2 };
    let c = Peer { ip: [10, 0, 0, 3], port: 3 };
    let d = Peer { ip: [10, 0, 0, 4], port: 4 };
    let e = Peer { ip: [10, 0, 0, 5], port: 5 };
    let set = connect_to_peers(&vec![
        ConnectAttempt { peer: a, outcome: ConnectOutcome::TimedOut },
        ConnectAttempt { peer: b, outcome: ConnectOutcome::Connected },
        ConnectAttempt { peer: c, outcome: ConnectOutcome::Refused },
        ConnectAttempt {
            peer: d,
            outcome: ConnectOutcome::HandshakeFailed(HandshakeError::IdentifierMismatch),
        },
        ConnectAttempt { peer: e, outcome: ConnectOutcome::Connected },
    ]);
    assert_eq!(set.connections.len(), 2);
    assert_eq!(set.connections[0].peer, b);
    assert_eq!(set.connections[0].id.value(), 0);
    assert_eq!(set.connections[1].peer, e);
    assert_eq!(set.connections[1].id.value(), 1);
    assert_eq!(set.manager.len(), 2);
    assert!(set.manager.is_open(set.connections[0].id));
    assert!(set.manager.is_open(set.connections[1].id));
}

#[test]
fn connect_with_no_peer_reached() {
    let set = connect_to_peers(&vec![ConnectAttempt {
        peer: Peer { ip: [10, 0, 0, 1], port: 1 },
        outcome: ConnectOutcome::TimedOut,
    }]);
    assert_eq!(set.connections.len(), 0);
    let mut manager: ConnectionManager = set.manager;
    assert_eq!(manager.next_message(), NextMessage::EndOfStream);
    let mut set = connect_to_peers(&Vec::new());
    assert_eq!(set.received_messages(), Vec::new());
}

#[test]
fn peer_connection_keeps_the_last_bitfield() {
    let mut manager = ConnectionManager::new();
    let id = manager.add_connection().unwrap();
    let mut connection = PeerConnection::new(Peer { ip: [1, 2, 3, 4], port: 5 }, id);
    assert_eq!(connection.bitfield, Vec::<u8>::new());
    connection.handle(Message::Unchoke);
    assert_eq!(connection.bitfield, Vec::<u8>::new());
    connection.handle(Message::Bitfield(vec![0x80]));
    assert_eq!(connection.bitfield, vec![0x80]);
    connection.handle(Message::Have);
    assert_eq!(connection.bitfield, vec![0x80]);
    connection.handle(Message::Bitfield(vec![0xc0, 0x01]));
    assert_eq!(connection.bitfield, vec![0xc0, 0x01]);
    assert_eq!(connection.id, id);
}

#[test]
fn received_messages_takes_all_that_came() {
    let peer = Peer { ip: [10, 0, 0, 1], port: 1 };
    let mut set = connect_to_peers(&vec![
        ConnectAttempt { peer, outcome: ConnectOutcome::Connected },
        ConnectAttempt { peer, outcome: ConnectOutcome::Connected },
    ]);
    let first = set.connections[0].id;
    let second = set.connections[1].id;
    assert!(set.manager.deliver(second, Message::Choke));
    assert!(set.manager.deliver(first, Message::Bitfield(vec![1])));
    assert!(set.manager.deliver(second, Message::Unchoke));
    assert_eq!(
        set.received_messages(),
        vec![
            (first, Message::Bitfield(vec![1])),
            (second, Message::Choke),
            (second, Message::Unchoke),
        ]
    );
    assert_eq!(set.received_messages(), Vec::new());
}

#[test]
fn received_messages_leaves_the_rest_of_the_registry() {
    let peer = Peer { ip: [10, 0, 0, 1], port: 1 };
    let mut set = connect_to_peers(&vec![
        ConnectAttempt { peer, outcome: ConnectOutcome::Connected },
        ConnectAttempt { peer, outcome: ConnectOutcome::Connected },
        ConnectAttempt { peer, outcome: ConnectOutcome::Connected },
    ]);
    let ids: Vec<_> = set.connections.iter().map(|c| c.id).collect();
    assert!(set.manager.deliver(ids[2], Message::Have));
    assert!(set.manager.deliver(ids[0], Message::Choke));
    assert!(set.manager.deliver(ids[2], Message::Piece));
    assert_eq!(set.manager.send(ids[1], Message::Interested), Ok(()));
    set.manager.close_connection(ids[0]);
    let connections = set.connections.clone();

    assert_eq!(
        set.received_messages(),
        vec![(ids[0], Message::Choke), (ids[2], Message::Have), (ids[2], Message::Piece)]
    );
    assert_eq!(set.connections, connections);
    assert_eq!(set.manager.len(), 3);
    assert!(!set.manager.is_open(ids[0]));
    assert!(set.manager.is_open(ids[1]));
    assert!(set.manager.is_open(ids[2]));
    assert_eq!(set.manager.take_outbound(ids[1]), Some(Message::Interested));
    assert_eq!(set.manager.next_message(), NextMessage::Pending);
    // the next id is the one that would have been next before
    assert_eq!(set.manager.add_connection().map(|id| id.value()), Some(3));
}

#[test]
fn only_reached_peers_show_in_the_stream() {
    let reached = Peer { ip: [10, 0, 0, 1], port: 1 };
    let silent = Peer { ip: [10, 0, 0, 2], port: 2 };
    let mut set = connect_to_peers(&vec![
        ConnectAttempt { peer: silent, outcome: ConnectOutcome::TimedOut },
        ConnectAttempt { peer: reached, outcome: ConnectOutcome::Connected },
    ]);
    let id = set.connections[0].id;
    let sent = vec![Message::Bitfield(vec![1]), Message::Unchoke, Message::Have, Message::Choke];
    let mut came = Vec::new();
    for (i, message) in sent.iter().enumerate() {
        assert!(set.manager.deliver(id, message.clone()));
        if i % 2 == 1 {
            while let NextMessage::Message(from, message) = set.manager.next_message() {
                assert_eq!(from, id);
                came.push(message);
            }
        }
    }
    assert_eq!(came, sent);
    assert_eq!(set.connections.iter().filter(|c| c.peer == silent).count(), 0);
}
