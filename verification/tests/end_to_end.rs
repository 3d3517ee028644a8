use plenty_of_fluids::message::Message;
use plenty_of_fluids::parser::parse_bencoded_torrent;
use plenty_of_fluids::peer_connection::{
    build_handshake, connect_to_peers, Action, ConnectAttempt, ConnectOutcome, Conversation,
};
use plenty_of_fluids::split_stream::NextMessage;
use plenty_of_fluids::tracker::{build_tracker_query, get_peers, HttpOutcome, TrackerConfig};

#[test]
fn announce_then_connect_with_one_peer_timing_out() {
    let mut torrent = b"d8:announce35:http://tracker.example.com/announce4:info\
        d6:lengthi1000e4:name8:test.txt12:piece lengthi512e6:pieces20:"
        .to_vec();
    torrent.extend_from_slice(&[3u8; 20]);
    torrent.extend_from_slice(b"ee");
    let metadata = parse_bencoded_torrent(torrent).unwrap();
    assert_eq!(metadata.info.length, 1000);

    let config = TrackerConfig { peer_id: "plenty-of-fluid00001".to_string(), port: 6881 };
    let query = build_tracker_query(&metadata, &config);
    assert!(query.starts_with("http://tracker.example.com/announce?peer_id="));
    assert!(query.contains("&left=1000&"));

    // the answer of a stub tracker: a compact list of twelve bytes
    let mut body = b"d8:intervali900e5:peers12:".to_vec();
    body.extend_from_slice(&[127, 0, 0, 1, 0x1a, 0xe1, 127, 0, 0, 2, 0x1a, 0xe2]);
    body.push(b'e');
    let peers = get_peers(&HttpOutcome::Answer(200, body)).unwrap();
    assert_eq!(peers.len(), 2);

    // the first peer answers with a handshake and messages, the second never answers
    let mut conversation = Conversation::new(metadata.info_hash.clone());
    conversation.receive(&build_handshake(&metadata, "-XX0001-abcdefghijkl"));
    assert_eq!(conversation.advance(), Action::Established);
    let mut set = connect_to_peers(&vec![
        ConnectAttempt { peer: peers[0], outcome: ConnectOutcome::Connected },
        ConnectAttempt { peer: peers[1], outcome: ConnectOutcome::TimedOut },
    ]);
    assert_eq!(set.connections.len(), 1);
    assert_eq!(set.connections[0].peer, peers[0]);
    let id = set.connections[0].id;

    conversation.receive(&Message::Bitfield(vec![0xe0]).to_frame());
    conversation.receive(&Message::Unchoke.to_frame());
    loop {
        match conversation.advance() {
            Action::Deliver(message) => assert!(set.manager.deliver(id, message)),
            Action::Wait => break,
            other => panic!("unexpected {:?}", other),
        }
    }
    assert_eq!(set.manager.next_message(), NextMessage::Message(id, Message::Bitfield(vec![0xe0])));
    assert_eq!(set.manager.next_message(), NextMessage::Message(id, Message::Unchoke));
    assert_eq!(set.manager.next_message(), NextMessage::Pending);
    assert_eq!(conversation.close(), None);
    set.manager.close_connection(id);
    assert_eq!(set.manager.next_message(), NextMessage::EndOfStream);
}
