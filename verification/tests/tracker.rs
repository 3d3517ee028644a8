use plenty_of_fluids::parser::{TorrentMetadata, TorrentMetadataInfo};
use plenty_of_fluids::tracker::{
    build_tracker_query, get_peers, join_nums, parse_tracker_response, try_into_array,
    unmarshal_peers, HttpOutcome, Peer, TrackerConfig, TrackerError,
};

fn metadata(length: i64, info_hash: Vec<u8>) -> TorrentMetadata {
    TorrentMetadata {
        info: TorrentMetadataInfo {
            pieces: Vec::new(),
            piece_length: 512,
            length,
            name: "test.txt".to_string(),
        },
        info_hash,
        announce: "http://tracker.example.com/announce".to_string(),
    }
}

fn config() -> TrackerConfig {
    TrackerConfig { peer_id: "plenty-of-fluid00001".to_string(), port: 6881 }
}

#[test]
fn correctly_unmarshal_peers() {
    let bytes = vec![91, 8, 150, 67, 200, 213, 79, 68, 128, 152, 128, 137];
    assert_eq!(unmarshal_peers(&bytes).is_ok(), true);
}

#[test]
fn unmarshals_bytes_into_peers() {
    let bytes = vec![91, 8, 150, 67, 200, 213, 79, 68, 128, 152, 128, 137];
    let peers = vec![
        Peer { ip: [91, 8, 150, 67], port: 51413 },
        Peer { ip: [79, 68, 128, 152], port: 32905 },
    ];

    let unmarshalled_peers = unmarshal_peers(&bytes).unwrap();
    assert_eq!(unmarshalled_peers.len(), 2);
    assert_eq!(unmarshalled_peers[0].ip, peers[0].ip);
    assert_eq!(unmarshalled_peers[0].port, peers[0].port);
    assert_eq!(unmarshalled_peers[1].ip, peers[1].ip);
    assert_eq!(unmarshalled_peers[1].port, peers[1].port);
}

#[test]
fn unmarshalling_returns_error_when_bytes_are_malformed() {
    let bytes = vec![91, 8, 150, 67, 200, 213, 79, 68, 128, 152, 128, 137, 123];

    assert_eq!(unmarshal_peers(&bytes).unwrap_err().message(), "Received malformed peers");
    assert_eq!(unmarshal_peers(&bytes), Err(TrackerError::MalformedPeerList));
}

#[test]
fn unmarshalling_an_empty_list_gives_no_peers() {
    assert_eq!(unmarshal_peers(&Vec::new()), Ok(Vec::new()));
}

#[test]
fn unmarshalling_checks_the_whole_length() {
    // 65538 bytes: 2 modulo 65536, but 0 modulo 6
    let bytes = vec![1u8; 65538];
    assert_eq!(unmarshal_peers(&bytes).map(|p| p.len()), Ok(10923));
    let bytes = vec![1u8; 65536];
    assert_eq!(unmarshal_peers(&bytes), Err(TrackerError::MalformedPeerList));
}

#[test]
fn port_is_read_high_byte_first() {
    let peers = unmarshal_peers(&vec![10, 0, 0, 1, 0x1a, 0xe1]).unwrap();
    assert_eq!(peers, vec![Peer { ip: [10, 0, 0, 1], port: 6881 }]);
}

#[test]
fn try_into_array_takes_the_first_two_bytes() {
    assert_eq!(try_into_array(&[200, 213]), [200, 213]);
    assert_eq!(try_into_array(&[1, 2, 3]), [1, 2]);
    assert_eq!(try_into_array(&[9]), [9, 0]);
    assert_eq!(try_into_array(&[]), [0, 0]);
}

#[test]
fn join_nums_joins_decimal_numerals() {
    assert_eq!(join_nums(vec![91, 8, 150, 67], "."), "91.8.150.67");
    assert_eq!(join_nums(vec![0, 255], ", "), "0, 255");
    assert_eq!(join_nums(vec![7], "."), "7");
    assert_eq!(join_nums(Vec::new(), "."), "");
}

#[test]
fn query_has_every_parameter_in_order() {
    let info_hash = vec![
        50, 55, 106, 179, 24, 224, 91, 65, 76, 100, 17, 52, 112, 66, 238, 3, 31, 29, 45, 231,
    ];
    let query = build_tracker_query(&metadata(1000, info_hash), &config());
    assert_eq!(
        query,
        "http://tracker.example.com/announce?peer_id=plenty-of-fluid00001&port=6881\
         &uploaded=0&downloaded=0&compact=0&left=1000\
         &info_hash=%32%37%6A%B3%18%E0%5B%41%4C%64%11%34%70%42%EE%03%1F%1D%2D%E7"
    );
}

#[test]
fn query_escapes_every_byte_of_the_identifier() {
    // letters and digits are escaped too
    let query = build_tracker_query(&metadata(1, b"aZ09".to_vec()), &config());
    assert!(query.ends_with("&left=1&info_hash=%61%5A%30%39"));
}

#[test]
fn query_form_encodes_the_peer_id() {
    let config = TrackerConfig { peer_id: "a b&c=d/é*-._~".to_string(), port: 1 };
    let query = build_tracker_query(&metadata(1, Vec::new()), &config);
    assert_eq!(
        query,
        "http://tracker.example.com/announce?peer_id=a+b%26c%3Dd%2F%C3%A9*-._%7E&port=1\
         &uploaded=0&downloaded=0&compact=0&left=1&info_hash="
    );
}

#[test]
fn query_writes_port_and_length_in_decimal() {
    let config = TrackerConfig { peer_id: "x".to_string(), port: 65535 };
    let query = build_tracker_query(&metadata(i64::MAX, Vec::new()), &config);
    assert!(query.contains("&port=65535&"));
    assert!(query.contains("&left=9223372036854775807&"));
    let query = build_tracker_query(&metadata(0, Vec::new()), &config);
    assert!(query.contains("&left=0&"));
}

#[test]
fn response_with_compact_peers_is_read() {
    let mut body = b"d8:intervali1800e5:peers12:".to_vec();
    body.extend_from_slice(&[91, 8, 150, 67, 200, 213, 79, 68, 128, 152, 128, 137]);
    body.push(b'e');
    let response = parse_tracker_response(&body).unwrap();
    assert_eq!(response.interval, Some(1800));
    assert_eq!(
        response.peers,
        vec![
            Peer { ip: [91, 8, 150, 67], port: 51413 },
            Peer { ip: [79, 68, 128, 152], port: 32905 },
        ]
    );
}

#[test]
fn response_without_interval_is_read() {
    let response = parse_tracker_response(b"d5:peers0:e").unwrap();
    assert_eq!(response.interval, None);
    assert_eq!(response.peers, Vec::new());
    let response = parse_tracker_response(b"d8:interval2:xx5:peers0:e").unwrap();
    assert_eq!(response.interval, None);
}

#[test]
fn response_errors() {
    assert_eq!(parse_tracker_response(b"d5:peers").err(), Some(TrackerError::MalformedEncoding));
    assert_eq!(parse_tracker_response(b"").err(), Some(TrackerError::MalformedEncoding));
    assert_eq!(parse_tracker_response(b"le").err(), Some(TrackerError::MalformedEncoding));
    assert_eq!(parse_tracker_response(b"de").err(), Some(TrackerError::FieldMissing));
    assert_eq!(parse_tracker_response(b"d5:peerslee").err(), Some(TrackerError::TypeMismatch));
    assert_eq!(
        parse_tracker_response(b"d5:peers5:abcdee").err(),
        Some(TrackerError::MalformedPeerList)
    );
}

#[test]
fn announce_outcomes() {
    assert_eq!(get_peers(&HttpOutcome::Failed), Err(TrackerError::NetworkError));
    assert_eq!(
        get_peers(&HttpOutcome::Answer(404, b"d5:peers0:e".to_vec())),
        Err(TrackerError::HttpError)
    );
    assert_eq!(
        get_peers(&HttpOutcome::Answer(199, b"d5:peers0:e".to_vec())),
        Err(TrackerError::HttpError)
    );
    assert_eq!(
        get_peers(&HttpOutcome::Answer(300, b"d5:peers0:e".to_vec())),
        Err(TrackerError::HttpError)
    );
    assert_eq!(get_peers(&HttpOutcome::Answer(200, b"d5:peers0:e".to_vec())), Ok(Vec::new()));
    assert_eq!(
        get_peers(&HttpOutcome::Answer(299, b"d5:peers6:\x0a\x00\x00\x01\x1a\xe1e".to_vec())),
        Ok(vec![Peer { ip: [10, 0, 0, 1], port: 6881 }])
    );
    assert_eq!(
        get_peers(&HttpOutcome::Answer(200, b"nonsense".to_vec())),
        Err(TrackerError::MalformedEncoding)
    );
}

#[test]
fn tracker_errors_have_messages() {
    assert_eq!(TrackerError::NetworkError.message(), "Could not reach the tracker");
    assert_eq!(TrackerError::MalformedPeerList.message(), "Received malformed peers");
}
