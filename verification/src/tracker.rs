//! The announce to the tracker: the query, and what its answer says.

use crate::codec::model::{decode_spec, ValueView};
use crate::codec::{decode, ParseError};
use crate::decimal::{int_digits, nat_digits, push_int, push_nat};
use crate::decoder::{bytes_field, field_of, get_field_by_key};
use crate::parser::TorrentMetadata;
use vstd::prelude::*;
use vstd::slice::slice_subrange;
use vstd::string::StringExecFns;
use vstd::utf8::encode_utf8;

verus! {

/// Number of bytes that stand for one peer in a compact peer list.
pub const PEER_SIZE: usize = 6;

/// A peer that the tracker named.
#[derive(Clone, Copy, Debug, PartialEq, Eq)]
pub struct Peer {
    /// The four bytes of the IPv4 address, first byte first.
    pub ip: [u8; 4],
    pub port: u16,
}

/// Who announces: the identifier this client goes by, and the port it
/// listens on.
#[derive(Clone, Debug, PartialEq, Eq)]
pub struct TrackerConfig {
    pub peer_id: String,
    pub port: u16,
}

/// How an announce can fail.
#[derive(Clone, Copy, Debug, PartialEq, Eq, Structural)]
pub enum TrackerError {
    /// The tracker could not be reached, or did not answer in time.
    NetworkError,
    /// The tracker answered with a status that is no success.
    HttpError,
    /// The answer is not the encoding of a dictionary.
    MalformedEncoding,
    /// The answer names no peers.
    FieldMissing,
    /// The peers are not given as a byte string.
    TypeMismatch,
    /// The length of the peer list is no multiple of six.
    MalformedPeerList,
}

/// What became of the request to the tracker.
#[derive(Clone, Debug, PartialEq, Eq)]
pub enum HttpOutcome {
    /// No answer: the connection failed or timed out.
    Failed,
    /// An answer, with its status code and its body.
    Answer(u16, Vec<u8>),
}

/// What the tracker said.
#[derive(Clone, Debug, PartialEq, Eq)]
pub struct TrackerResponse {
    pub peers: Vec<Peer>,
    /// Seconds to wait before the next announce, where the tracker gave an
    /// integer for it.
    pub interval: Option<i64>,
}

/// The key `peers`.
pub open spec fn peers_key() -> Seq<u8> {
    seq![112u8, 101, 101, 114, 115]
}

/// The key `interval`.
pub open spec fn interval_key() -> Seq<u8> {
    seq![105u8, 110, 116, 101, 114, 118, 97, 108]
}

/// The peer that the six bytes of `list` from `6 * i` on stand for: four
/// bytes of address, then the port with its high byte first.
pub open spec fn peer_at(list: Seq<u8>, i: int) -> Peer {
    Peer {
        ip: [list[6 * i], list[6 * i + 1], list[6 * i + 2], list[6 * i + 3]],
        port: (list[6 * i + 4] * 256 + list[6 * i + 5]) as u16,
    }
}

/// The peers of a compact peer list, or `MalformedPeerList` where its
/// length is no multiple of six.
pub open spec fn unmarshal_spec(list: Seq<u8>) -> Result<Seq<Peer>, TrackerError> {
    if list.len() % 6 == 0 {
        Ok(Seq::new(list.len() / 6, |i: int| peer_at(list, i)))
    } else {
        Err(TrackerError::MalformedPeerList)
    }
}

/// The first two bytes of `slice`, with 0 for each that it lacks.
pub fn try_into_array(slice: &[u8]) -> (array: [u8; 2])
    ensures
        array@.len() == 2,
        forall|i: int|
            0 <= i < 2 ==> #[trigger] array@[i] == (if i < slice@.len() {
                slice@[i]
            } else {
                0u8
            }),
{
    let first: u8 = if slice.len() > 0 {
        slice[0]
    } else {
        0
    };
    let second: u8 = if slice.len() > 1 {
        slice[1]
    } else {
        0
    };
    [first, second]
}

/// Reads a compact peer list.
pub fn unmarshal_peers(peers: &Vec<u8>) -> (r: Result<Vec<Peer>, TrackerError>)
    ensures
        match unmarshal_spec(peers@) {
            Ok(list) => r is Ok && r->Ok_0@ == list,
            Err(e) => r == Err::<Vec<Peer>, TrackerError>(e),
        },
{
    if peers.len() % PEER_SIZE != 0 {
        return Err(TrackerError::MalformedPeerList);
    }
    let mut unmarshalled_peers: Vec<Peer> = Vec::new();
    let mut from: usize = 0;
    while from < peers.len()
        invariant
            peers@.len() % 6 == 0,
            from <= peers@.len(),
            from == 6 * unmarshalled_peers@.len(),
            forall|k: int|
                0 <= k < unmarshalled_peers@.len() ==> #[trigger] unmarshalled_peers@[k]
                    == peer_at(peers@, k),
        decreases peers@.len() - from,
    {
        let port_bytes = try_into_array(slice_subrange(peers.as_slice(), from + 4, from + 6));
        let peer = Peer {
            ip: [peers[from], peers[from + 1], peers[from + 2], peers[from + 3]],
            port: (port_bytes[0] as u16) * 256 + port_bytes[1] as u16,
        };
        unmarshalled_peers.push(peer);
        from += 6;
    }
    assert(unmarshalled_peers@ =~= unmarshal_spec(peers@)->Ok_0);
    Ok(unmarshalled_peers)
}

/// Specifies `String::push` of std.
///
/// Not proved: that the string afterwards holds what it held before,
/// followed by `c`.
pub assume_specification[ String::push ](s: &mut String, c: char)
    ensures
        final(s)@ == old(s)@.push(c),
;

/// The upper-case hexadecimal digit for `d`, which is below 16.
pub open spec fn hex_char(d: int) -> char {
    if d < 10 {
        (48 + d) as char
    } else {
        (55 + d) as char
    }
}

/// `%` and the two hexadecimal digits of `b`.
pub open spec fn percent_byte(b: u8) -> Seq<char> {
    seq!['%', hex_char(b as int / 16), hex_char(b as int % 16)]
}

/// Every byte of `bytes` as `%` and two hexadecimal digits, letters and
/// digits too.
pub open spec fn percent_all(bytes: Seq<u8>) -> Seq<char>
    decreases bytes.len(),
{
    if bytes.len() == 0 {
        Seq::empty()
    } else {
        percent_all(bytes.drop_last()) + percent_byte(bytes.last())
    }
}

/// Whether form encoding leaves `b` as it is: an ASCII letter or digit, or
/// one of `*`, `-`, `.`, `_`.
pub open spec fn form_unchanged(b: u8) -> bool {
    b == 42 || b == 45 || b == 46 || 48 <= b <= 57 || 65 <= b <= 90 || b == 95 || 97 <= b <= 122
}

/// One byte in form encoding: itself, `+` for a space, or `%` and two
/// hexadecimal digits.
pub open spec fn form_byte(b: u8) -> Seq<char> {
    if form_unchanged(b) {
        seq![b as char]
    } else if b == 32 {
        seq!['+']
    } else {
        percent_byte(b)
    }
}

/// `bytes` in `application/x-www-form-urlencoded` form.
pub open spec fn form_encoded(bytes: Seq<u8>) -> Seq<char>
    decreases bytes.len(),
{
    if bytes.len() == 0 {
        Seq::empty()
    } else {
        form_encoded(bytes.drop_last()) + form_byte(bytes.last())
    }
}

/// The bytes of `bytes` as characters, one for one.
pub open spec fn ascii_chars(bytes: Seq<u8>) -> Seq<char> {
    Seq::new(bytes.len(), |i: int| bytes[i] as char)
}

/// Calls `url::form_urlencoded::byte_serialize` and collects the pieces
/// it yields.
///
/// Not proved: that the pieces, one after the other, are `form_encoded` of
/// the input. In the crate's source each byte of the input yields itself
/// where `byte_serialized_unchanged` holds, `+` where it is a space, and
/// else the three characters of `percent_encode_byte`.
#[verifier::external_body]
fn form_urlencode(bytes: &[u8]) -> (out: String)
    ensures
        out@ == form_encoded(bytes@),
{
    url::form_urlencoded::byte_serialize(bytes).collect()
}

/// The upper-case hexadecimal digit for `d`.
fn hex_digit(d: u8) -> (c: char)
    requires
        d < 16,
    ensures
        c == hex_char(d as int),
{
    if d < 10 {
        (48 + d) as char
    } else {
        (55 + d) as char
    }
}

/// Appends every byte of `bytes` to `out` as `%` and two hexadecimal
/// digits.
pub fn percent_encode_into(out: &mut String, bytes: &[u8])
    ensures
        final(out)@ == old(out)@ + percent_all(bytes@),
{
    let mut i: usize = 0;
    assert(bytes@.take(0) =~= Seq::<u8>::empty());
    while i < bytes.len()
        invariant
            i <= bytes@.len(),
            out@ == old(out)@ + percent_all(bytes@.take(i as int)),
        decreases bytes@.len() - i,
    {
        let b = bytes[i];
        out.push('%');
        out.push(hex_digit(b / 16));
        out.push(hex_digit(b % 16));
        proof {
            let next = bytes@.take(i + 1);
            assert(next.drop_last() =~= bytes@.take(i as int));
            assert(out@ =~= old(out)@ + percent_all(next));
        }
        i += 1;
    }
    assert(bytes@.take(i as int) =~= bytes@);
}

/// Appends the bytes of `bytes` to `out` as characters.
fn push_ascii(out: &mut String, bytes: &Vec<u8>)
    ensures
        final(out)@ == old(out)@ + ascii_chars(bytes@),
{
    let mut i: usize = 0;
    while i < bytes.len()
        invariant
            i <= bytes@.len(),
            out@ == old(out)@ + ascii_chars(bytes@.take(i as int)),
        decreases bytes@.len() - i,
    {
        out.push(bytes[i] as char);
        proof {
            assert(out@ =~= old(out)@ + ascii_chars(bytes@.take(i + 1)));
        }
        i += 1;
    }
    assert(bytes@.take(i as int) =~= bytes@);
}

/// The numerals of `nums`, with `sep` between one and the next.
pub open spec fn join_spec(nums: Seq<u8>, sep: Seq<char>) -> Seq<char>
    decreases nums.len(),
{
    if nums.len() == 0 {
        Seq::empty()
    } else if nums.len() == 1 {
        ascii_chars(nat_digits(nums[0] as nat))
    } else {
        join_spec(nums.drop_last(), sep) + sep + ascii_chars(nat_digits(nums.last() as nat))
    }
}

/// The numbers of `nums` in decimal, joined by `sep`.
pub fn join_nums(nums: Vec<u8>, sep: &str) -> (out: String)
    ensures
        out@ == join_spec(nums@, sep@),
{
    let mut out = String::new();
    let mut i: usize = 0;
    assert(nums@.take(0) =~= Seq::<u8>::empty());
    while i < nums.len()
        invariant
            i <= nums@.len(),
            out@ == join_spec(nums@.take(i as int), sep@),
        decreases nums@.len() - i,
    {
        if i > 0 {
            out.append(sep);
        }
        let mut digits: Vec<u8> = Vec::new();
        push_nat(&mut digits, nums[i] as u64);
        push_ascii(&mut out, &digits);
        proof {
            let next = nums@.take(i + 1);
            assert(next.drop_last() =~= nums@.take(i as int));
            assert(digits@ =~= nat_digits(nums@[i as int] as nat));
            assert(out@ =~= join_spec(next, sep@));
        }
        i += 1;
    }
    assert(nums@.take(i as int) =~= nums@);
    out
}

/// The address to ask for peers: the announce address, `?`, and the
/// parameters `peer_id`, `port`, `uploaded`, `downloaded`, `compact`, `left`
/// and `info_hash` in this order. `peer_id` is form-encoded, `left` is the
/// length of the content, and every byte of the identifier is written as
/// `%` and two hexadecimal digits.
pub open spec fn tracker_query(
    announce: Seq<char>,
    peer_id: Seq<u8>,
    port: u16,
    left: i64,
    info_hash: Seq<u8>,
) -> Seq<char> {
    announce + "?peer_id="@ + form_encoded(peer_id) + "&port="@ + ascii_chars(
        nat_digits(port as nat),
    ) + "&uploaded=0&downloaded=0&compact=0&left="@ + ascii_chars(int_digits(left as int))
        + "&info_hash="@ + percent_all(info_hash)
}

/// The address to ask the tracker of `metadata` for peers.
pub fn build_tracker_query(metadata: &TorrentMetadata, config: &TrackerConfig) -> (query: String)
    ensures
        query@ == tracker_query(
            metadata.announce@,
            encode_utf8(config.peer_id@),
            config.port,
            metadata.info.length,
            metadata.info_hash@,
        ),
{
    let mut query = metadata.announce.clone();
    query.append("?peer_id=");
    let peer_id = form_urlencode(config.peer_id.as_str().as_bytes());
    query.append(peer_id.as_str());
    query.append("&port=");
    let mut port: Vec<u8> = Vec::new();
    push_nat(&mut port, config.port as u64);
    push_ascii(&mut query, &port);
    query.append("&uploaded=0&downloaded=0&compact=0&left=");
    let mut left: Vec<u8> = Vec::new();
    push_int(&mut left, metadata.info.length);
    push_ascii(&mut query, &left);
    query.append("&info_hash=");
    percent_encode_into(&mut query, metadata.info_hash.as_slice());
    proof {
        assert(port@ =~= nat_digits(config.port as nat));
        assert(left@ =~= int_digits(metadata.info.length as int));
    }
    query
}

/// The peers that the body of an answer names. The body has to be the
/// encoding of a dictionary (`MalformedEncoding`) that holds under `peers`
/// (`FieldMissing`) a byte string (`TypeMismatch`) whose length is a
/// multiple of six (`MalformedPeerList`).
pub open spec fn response_peers(body: Seq<u8>) -> Result<Seq<Peer>, TrackerError> {
    match decode_spec(body) {
        Some(ValueView::Dict(top)) => match bytes_field(top, peers_key()) {
            Ok(list) => unmarshal_spec(list),
            Err(ParseError::FieldMissing) => Err(TrackerError::FieldMissing),
            Err(_) => Err(TrackerError::TypeMismatch),
        },
        _ => Err(TrackerError::MalformedEncoding),
    }
}

/// The interval that the body of an answer gives, where it gives an
/// integer for it.
pub open spec fn response_interval(body: Seq<u8>) -> Option<i64> {
    match decode_spec(body) {
        Some(ValueView::Dict(top)) => match field_of(top, interval_key()) {
            Ok(ValueView::Integer(n)) => Some(n),
            _ => None,
        },
        _ => None,
    }
}

/// Whether `status` is an HTTP status of success.
pub open spec fn is_success(status: u16) -> bool {
    200 <= status < 300
}

/// What an announce gives for each way the request can end:
/// `NetworkError` where it got no answer, `HttpError` where the status is
/// no success, and else what the body says.
pub open spec fn announce_result(outcome: HttpOutcome) -> Result<Seq<Peer>, TrackerError> {
    match outcome {
        HttpOutcome::Failed => Err(TrackerError::NetworkError),
        HttpOutcome::Answer(status, body) => if is_success(status) {
            response_peers(body@)
        } else {
            Err(TrackerError::HttpError)
        },
    }
}

/// Reads the body of the tracker's answer.
pub fn parse_tracker_response(body: &[u8]) -> (r: Result<TrackerResponse, TrackerError>)
    ensures
        match response_peers(body@) {
            Ok(peers) => r is Ok && r->Ok_0.peers@ == peers && r->Ok_0.interval
                == response_interval(body@),
            Err(e) => r == Err::<TrackerResponse, TrackerError>(e),
        },
{
    let root = match decode(body) {
        Ok(v) => v,
        Err(_) => {
            return Err(TrackerError::MalformedEncoding);
        },
    };
    let top = match root.as_dict() {
        Ok(d) => d,
        Err(_) => {
            return Err(TrackerError::MalformedEncoding);
        },
    };
    let peers_name: Vec<u8> = vec![112u8, 101, 101, 114, 115];
    let interval_name: Vec<u8> = vec![105u8, 110, 116, 101, 114, 118, 97, 108];
    proof {
        assert(peers_name@ =~= peers_key());
        assert(interval_name@ =~= interval_key());
    }
    let list = match get_field_by_key(top, peers_name.as_slice()) {
        Ok(v) => match v.as_bytes() {
            Ok(b) => b,
            Err(_) => {
                return Err(TrackerError::TypeMismatch);
            },
        },
        Err(_) => {
            return Err(TrackerError::FieldMissing);
        },
    };
    let peers = match unmarshal_peers(list) {
        Ok(p) => p,
        Err(e) => {
            return Err(e);
        },
    };
    let interval = match get_field_by_key(top, interval_name.as_slice()) {
        Ok(v) => match v.as_integer() {
            Ok(n) => Some(n),
            Err(_) => None,
        },
        Err(_) => None,
    };
    Ok(TrackerResponse { peers, interval })
}

/// The peers that an announce gives, from what became of the request.
pub fn get_peers(outcome: &HttpOutcome) -> (r: Result<Vec<Peer>, TrackerError>)
    ensures
        match announce_result(*outcome) {
            Ok(peers) => r is Ok && r->Ok_0@ == peers,
            Err(e) => r == Err::<Vec<Peer>, TrackerError>(e),
        },
{
    match outcome {
        HttpOutcome::Failed => Err(TrackerError::NetworkError),
        HttpOutcome::Answer(status, body) => {
            if *status < 200 || *status >= 300 {
                return Err(TrackerError::HttpError);
            }
            match parse_tracker_response(body.as_slice()) {
                Ok(response) => Ok(response.peers),
                Err(e) => Err(e),
            }
        },
    }
}

impl TrackerError {
    /// What went wrong, in words.
    pub fn message(&self) -> (text: String)
        ensures
            text@ == (match self {
                TrackerError::NetworkError => "Could not reach the tracker"@,
                TrackerError::HttpError => "The tracker answered with an error status"@,
                TrackerError::MalformedEncoding => "Malformed tracker response"@,
                TrackerError::FieldMissing => "Could not find peers"@,
                TrackerError::TypeMismatch => "Peers are not a byte string"@,
                TrackerError::MalformedPeerList => "Received malformed peers"@,
            }),
    {
        match self {
            TrackerError::NetworkError => String::from_str("Could not reach the tracker"),
            TrackerError::HttpError => String::from_str(
                "The tracker answered with an error status",
            ),
            TrackerError::MalformedEncoding => String::from_str("Malformed tracker response"),
            TrackerError::FieldMissing => String::from_str("Could not find peers"),
            TrackerError::TypeMismatch => String::from_str("Peers are not a byte string"),
            TrackerError::MalformedPeerList => String::from_str("Received malformed peers"),
        }
    }
}

} // verus!
