use plenty_of_fluids::codec::ParseError;
use plenty_of_fluids::parser::parse_bencoded_torrent;

fn torrent_with_info(info: &[u8]) -> Vec<u8> {
    let mut bytes = b"d8:announce35:http://tracker.example.com/announce4:info".to_vec();
    bytes.extend_from_slice(info);
    bytes.push(b'e');
    bytes
}

fn reference_info() -> Vec<u8> {
    let mut info = b"d6:lengthi1000e4:name8:test.txt12:piece lengthi512e6:pieces40:".to_vec();
    info.extend(0u8..40);
    info.push(b'e');
    info
}

#[test]
fn correctly_parse_torrent_file() {
    let bencoded_metadata: Vec<u8> = torrent_with_info(&reference_info());
    assert_eq!(parse_bencoded_torrent(bencoded_metadata).is_ok(), true)
}

#[test]
fn parses_every_field() {
    let metadata = parse_bencoded_torrent(torrent_with_info(&reference_info())).unwrap();
    assert_eq!(metadata.announce, "http://tracker.example.com/announce");
    assert_eq!(metadata.info.name, "test.txt");
    assert_eq!(metadata.info.length, 1000);
    assert_eq!(metadata.info.piece_length, 512);
    assert_eq!(metadata.info.pieces.len(), 2);
    assert_eq!(metadata.info.pieces[0], (0u8..20).collect::<Vec<u8>>());
    assert_eq!(metadata.info.pieces[1], (20u8..40).collect::<Vec<u8>>());
}

#[test]
fn identifier_is_the_digest_of_the_info_dictionary() {
    let metadata = parse_bencoded_torrent(torrent_with_info(&reference_info())).unwrap();
    assert_eq!(
        metadata.info_hash,
        vec![50, 55, 106, 179, 24, 224, 91, 65, 76, 100, 17, 52, 112, 66, 238, 3, 31, 29, 45, 231]
    );
}

#[test]
fn identifier_does_not_depend_on_what_stands_around_info() {
    let mut bytes = b"d8:announce3:abc7:comment5:hello4:info".to_vec();
    bytes.extend_from_slice(&reference_info());
    bytes.push(b'e');
    let metadata = parse_bencoded_torrent(bytes).unwrap();
    assert_eq!(
        metadata.info_hash,
        vec![50, 55, 106, 179, 24, 224, 91, 65, 76, 100, 17, 52, 112, 66, 238, 3, 31, 29, 45, 231]
    );
    assert_eq!(metadata.announce, "abc");
}

#[test]
fn root_has_to_be_a_dictionary() {
    assert_eq!(parse_bencoded_torrent(b"le".to_vec()), Err(ParseError::MalformedEncoding));
    assert_eq!(parse_bencoded_torrent(b"i1e".to_vec()), Err(ParseError::MalformedEncoding));
    assert_eq!(parse_bencoded_torrent(b"".to_vec()), Err(ParseError::MalformedEncoding));
    assert_eq!(parse_bencoded_torrent(b"d8:announce".to_vec()), Err(ParseError::MalformedEncoding));
}

#[test]
fn missing_fields() {
    assert_eq!(parse_bencoded_torrent(b"de".to_vec()), Err(ParseError::FieldMissing));
    assert_eq!(
        parse_bencoded_torrent(b"d8:announce1:ae".to_vec()),
        Err(ParseError::FieldMissing)
    );
    assert_eq!(parse_bencoded_torrent(torrent_with_info(b"de")), Err(ParseError::FieldMissing));
    assert_eq!(
        parse_bencoded_torrent(torrent_with_info(b"d4:name1:xe")),
        Err(ParseError::FieldMissing)
    );
    assert_eq!(
        parse_bencoded_torrent(torrent_with_info(b"d6:lengthi1e4:name1:xe")),
        Err(ParseError::FieldMissing)
    );
    assert_eq!(
        parse_bencoded_torrent(torrent_with_info(b"d6:lengthi1e4:name1:x12:piece lengthi1ee")),
        Err(ParseError::FieldMissing)
    );
}

#[test]
fn mistyped_fields() {
    assert_eq!(
        parse_bencoded_torrent(b"d8:announcei1e4:infodee".to_vec()),
        Err(ParseError::TypeMismatch)
    );
    assert_eq!(
        parse_bencoded_torrent(b"d8:announce1:a4:infolee".to_vec()),
        Err(ParseError::TypeMismatch)
    );
    assert_eq!(
        parse_bencoded_torrent(torrent_with_info(
            b"d6:length1:x4:name1:x12:piece lengthi1e6:pieces0:e"
        )),
        Err(ParseError::TypeMismatch)
    );
    assert_eq!(
        parse_bencoded_torrent(torrent_with_info(
            b"d6:lengthi1e4:namei1e12:piece lengthi1e6:pieces0:e"
        )),
        Err(ParseError::TypeMismatch)
    );
    assert_eq!(
        parse_bencoded_torrent(torrent_with_info(
            b"d6:lengthi1e4:name1:x12:piece lengthi1e6:piecesi0ee"
        )),
        Err(ParseError::TypeMismatch)
    );
}

#[test]
fn lengths_have_to_be_positive() {
    assert_eq!(
        parse_bencoded_torrent(torrent_with_info(
            b"d6:lengthi0e4:name1:x12:piece lengthi1e6:pieces0:e"
        )),
        Err(ParseError::TypeMismatch)
    );
    assert_eq!(
        parse_bencoded_torrent(torrent_with_info(
            b"d6:lengthi1e4:name1:x12:piece lengthi-1e6:pieces0:e"
        )),
        Err(ParseError::TypeMismatch)
    );
}

#[test]
fn pieces_have_to_be_whole_hashes() {
    assert_eq!(
        parse_bencoded_torrent(torrent_with_info(
            b"d6:lengthi1e4:name1:x12:piece lengthi1e6:pieces3:abce"
        )),
        Err(ParseError::TypeMismatch)
    );
    let metadata = parse_bencoded_torrent(torrent_with_info(
        b"d6:lengthi1e4:name1:x12:piece lengthi1e6:pieces0:e",
    ))
    .unwrap();
    assert_eq!(metadata.info.pieces.len(), 0);
}

#[test]
fn the_first_fault_decides_the_error() {
    // announce is looked at before info
    assert_eq!(
        parse_bencoded_torrent(b"d8:announcei1ee".to_vec()),
        Err(ParseError::TypeMismatch)
    );
    // name before length
    assert_eq!(
        parse_bencoded_torrent(torrent_with_info(b"d6:length1:xe")),
        Err(ParseError::FieldMissing)
    );
}
