//! The peer wire protocol: the handshake, the framing of messages, and the
//! course of one conversation.

use crate::message::{identify_message, message_handler, message_of, Message, MessageView};
use crate::parser::TorrentMetadata;
use crate::split_stream::{
    fresh_manager, lemma_next_takes_first, taken_all, waiting_messages, ConnectionManager,
    NextMessage, PeerId,
};
use crate::tracker::Peer;
use vstd::prelude::*;
use vstd::slice::slice_subrange;
use vstd::string::StringExecFns;
use vstd::utf8::{encode_utf8, is_ascii_chars, is_ascii_chars_encode_utf8};

verus! {

/// Seconds to wait for a peer to accept a connection.
pub const CONNECT_TIMEOUT_SECS: u64 = 3;

/// Number of reserved bytes in a handshake.
pub const RESERVED_LEN: usize = 8;

/// The opening message of a conversation.
#[derive(Clone, Debug, PartialEq, Eq)]
pub struct Handshake {
    /// Name of the protocol.
    pub pstr: String,
    /// The content identifier.
    pub info_hash: Vec<u8>,
    /// Who sends the handshake.
    pub peer_id: String,
}

/// How a handshake can fail.
#[derive(Clone, Copy, Debug, PartialEq, Eq, Structural)]
pub enum HandshakeError {
    /// The connection was closed before the handshake was complete.
    ConnectionClosed,
    /// The peer speaks of other content.
    IdentifierMismatch,
}

/// Where the reading of a handshake stands.
#[derive(Clone, Copy, Debug, PartialEq, Eq, Structural)]
pub enum HandshakeStep {
    /// The bytes so far decide nothing yet.
    NeedMore,
    /// The handshake is complete and names the expected content; it took the
    /// number of bytes given.
    Accepted(usize),
    /// The handshake names other content.
    Rejected,
}

/// The name of the protocol, `BitTorrent protocol`.
pub open spec fn protocol_name() -> Seq<u8> {
    seq![
        66u8, 105, 116, 84, 111, 114, 114, 101, 110, 116, 32, 112, 114, 111, 116, 111, 99, 111,
        108,
    ]
}

/// The bytes of a handshake: the length of the protocol name in one byte,
/// the name, eight zero bytes, the identifier, the sender's id. The name
/// has to be short enough for its length to fit in that byte.
pub open spec fn handshake_bytes(pstr: Seq<u8>, info_hash: Seq<u8>, peer_id: Seq<u8>) -> Seq<u8>
    recommends
        pstr.len() <= 255,
{
    seq![pstr.len() as u8] + pstr + Seq::new(8, |i: int| 0u8) + info_hash + peer_id
}

/// Where the reading of a handshake stands once `received` has come in.
/// The first byte gives the length of the protocol name; the name and the
/// eight reserved bytes are skipped; the twenty bytes behind them have to
/// be `expected`; twenty more, the peer's id, complete the handshake.
pub open spec fn handshake_step(received: Seq<u8>, expected: Seq<u8>) -> HandshakeStep {
    if received.len() < 1 {
        HandshakeStep::NeedMore
    } else {
        let n = received[0] as int;
        if received.len() < n + 29 {
            HandshakeStep::NeedMore
        } else if received.subrange(n + 9, n + 29) != expected {
            HandshakeStep::Rejected
        } else if received.len() < n + 49 {
            HandshakeStep::NeedMore
        } else {
            HandshakeStep::Accepted((n + 49) as usize)
        }
    }
}

/// What a handshake comes to when nothing follows `received`.
pub open spec fn handshake_result(received: Seq<u8>, expected: Seq<u8>) -> Result<
    (),
    HandshakeError,
> {
    match handshake_step(received, expected) {
        HandshakeStep::Accepted(_) => Ok(()),
        HandshakeStep::Rejected => Err(HandshakeError::IdentifierMismatch),
        HandshakeStep::NeedMore => Err(HandshakeError::ConnectionClosed),
    }
}

impl Handshake {
    /// The bytes to send. The protocol name may have at most 255 bytes,
    /// the most that the one byte for its length can say.
    pub fn to_bytes(&self) -> (bytes: Vec<u8>)
        requires
            encode_utf8(self.pstr@).len() <= 255,
        ensures
            bytes@ == handshake_bytes(
                encode_utf8(self.pstr@),
                self.info_hash@,
                encode_utf8(self.peer_id@),
            ),
    {
        let pstr = self.pstr.as_str().as_bytes();
        let peer_id = self.peer_id.as_str().as_bytes();
        let mut bytes: Vec<u8> = Vec::new();
        bytes.push(pstr.len() as u8);
        bytes.extend_from_slice(pstr);
        let mut i: usize = 0;
        while i < RESERVED_LEN
            invariant
                i <= 8,
                bytes@ == seq![pstr@.len() as u8] + pstr@ + Seq::new(i as nat, |k: int| 0u8),
            decreases 8 - i,
        {
            bytes.push(0);
            i += 1;
            assert(bytes@ =~= seq![pstr@.len() as u8] + pstr@ + Seq::new(i as nat, |k: int| 0u8));
        }
        bytes.extend_from_slice(self.info_hash.as_slice());
        bytes.extend_from_slice(peer_id);
        assert(bytes@ =~= handshake_bytes(pstr@, self.info_hash@, peer_id@));
        bytes
    }
}

/// The handshake to open a conversation about `metadata` with, sent by
/// `local_peer_id`.
pub fn build_handshake(metadata: &TorrentMetadata, local_peer_id: &str) -> (bytes: Vec<u8>)
    ensures
        bytes@ == handshake_bytes(
            protocol_name(),
            metadata.info_hash@,
            encode_utf8(local_peer_id@),
        ),
{
    let handshake = Handshake {
        pstr: String::from_str("BitTorrent protocol"),
        info_hash: metadata.info_hash.clone(),
        peer_id: String::from_str(local_peer_id),
    };
    proof {
        reveal_strlit("BitTorrent protocol");
        let name = "BitTorrent protocol"@;
        assert(is_ascii_chars(name));
        is_ascii_chars_encode_utf8(name);
        assert(encode_utf8(name) =~= protocol_name());
    }
    handshake.to_bytes()
}

/// Where the reading of a handshake stands once `received` has come in.
pub fn receive_handshake(received: &[u8], our_info_hash: &[u8]) -> (step: HandshakeStep)
    ensures
        step == handshake_step(received@, our_info_hash@),
{
    if received.len() < 1 {
        return HandshakeStep::NeedMore;
    }
    let n = received[0] as usize;
    if received.len() < n + 29 {
        return HandshakeStep::NeedMore;
    }
    let info_hash = slice_subrange(received, n + 9, n + 29);
    if !crate::order::key_eq(info_hash, our_info_hash) {
        return HandshakeStep::Rejected;
    }
    if received.len() < n + 49 {
        return HandshakeStep::NeedMore;
    }
    HandshakeStep::Accepted(n + 49)
}

/// Judges a handshake of which `received_bytes` is all that came:
/// `IdentifierMismatch` where the identifier in it is not
/// `expected_identifier`, whatever the other bytes are, and
/// `ConnectionClosed` where a part is incomplete.
pub fn validate_handshake(received_bytes: &[u8], expected_identifier: &[u8]) -> (r: Result<
    (),
    HandshakeError,
>)
    ensures
        r == handshake_result(received_bytes@, expected_identifier@),
{
    match receive_handshake(received_bytes, expected_identifier) {
        HandshakeStep::Accepted(_) => Ok(()),
        HandshakeStep::Rejected => Err(HandshakeError::IdentifierMismatch),
        HandshakeStep::NeedMore => Err(HandshakeError::ConnectionClosed),
    }
}

/// A handshake that holds another identifier than the expected one is
/// rejected for that, whatever its other bytes are.
pub proof fn lemma_identifier_mismatch(received: Seq<u8>, expected: Seq<u8>)
    requires
        received.len() >= 1,
        received.len() >= received[0] + 29,
        received.subrange(received[0] + 9, received[0] + 29) != expected,
    ensures
        handshake_result(received, expected) == Err::<(), HandshakeError>(
            HandshakeError::IdentifierMismatch,
        ),
{
}

/// A handshake built for an identifier of twenty bytes, with a protocol
/// name shorter than 256 bytes and a sender's id of twenty bytes, is
/// accepted by whoever expects that identifier, and taken whole.
pub proof fn lemma_own_handshake_accepted(pstr: Seq<u8>, info_hash: Seq<u8>, peer_id: Seq<u8>)
    requires
        pstr.len() < 256,
        info_hash.len() == 20,
        peer_id.len() == 20,
    ensures
        handshake_step(handshake_bytes(pstr, info_hash, peer_id), info_hash)
            == HandshakeStep::Accepted((pstr.len() + 49) as usize),
{
    let bytes = handshake_bytes(pstr, info_hash, peer_id);
    let n = pstr.len() as int;
    assert(bytes.len() == n + 49);
    assert(bytes[0] == n);
    assert(bytes.subrange(n + 9, n + 29) =~= info_hash);
}

/// Where the reading of a message frame stands.
#[derive(Clone, Debug, PartialEq, Eq)]
pub enum FrameStep {
    /// The bytes so far hold no whole frame.
    NeedMore,
    /// A frame that holds the message given; it took the number of bytes
    /// given.
    Complete(Message, usize),
    /// A frame with an id that stands for no message; it took the number of
    /// bytes given.
    Unknown(usize),
}

/// `FrameStep` as a plain mathematical value.
pub enum FrameStepView {
    NeedMore,
    Complete(MessageView, int),
    Unknown(int),
}

impl View for FrameStep {
    type V = FrameStepView;

    open spec fn view(&self) -> FrameStepView {
        match self {
            FrameStep::NeedMore => FrameStepView::NeedMore,
            FrameStep::Complete(m, n) => FrameStepView::Complete(m@, *n as int),
            FrameStep::Unknown(n) => FrameStepView::Unknown(*n as int),
        }
    }
}

/// The number that the first four bytes of `bytes` write, the highest byte
/// first.
pub open spec fn be_u32(bytes: Seq<u8>) -> int {
    bytes[0] * 16777216 + bytes[1] * 65536 + bytes[2] * 256 + bytes[3]
}

/// The four bytes that write `n`, the highest byte first.
pub open spec fn be_bytes(n: int) -> Seq<u8> {
    seq![
        (n / 16777216 % 256) as u8,
        (n / 65536 % 256) as u8,
        (n / 256 % 256) as u8,
        (n % 256) as u8,
    ]
}

/// The frame that carries a message: four bytes of length, then the id and
/// the payload; four zero bytes for a keep-alive.
pub open spec fn frame_of(m: MessageView) -> Seq<u8> {
    match m.id() {
        None => be_bytes(0),
        Some(id) => be_bytes(1 + m.payload().len() as int) + seq![id] + m.payload(),
    }
}

/// Where the reading of a frame stands once `buffer` has come in. Four
/// bytes give the length of the body. A length of zero is a keep-alive,
/// and no byte of a body is read. Otherwise the whole body has to be
/// there; its first byte is the id, the rest is the payload.
pub open spec fn frame_step(buffer: Seq<u8>) -> FrameStepView {
    if buffer.len() < 4 {
        FrameStepView::NeedMore
    } else {
        let size = be_u32(buffer);
        if size == 0 {
            FrameStepView::Complete(MessageView::KeepAlive, 4)
        } else if buffer.len() < 4 + size {
            FrameStepView::NeedMore
        } else {
            match message_of(buffer[4], buffer.subrange(5, 4 + size)) {
                Ok(m) => FrameStepView::Complete(m, 4 + size),
                Err(_) => FrameStepView::Unknown(4 + size),
            }
        }
    }
}

/// The number that the first four bytes of `bytes` write, the highest byte
/// first.
pub fn bytes_to_u32(bytes: &[u8]) -> (n: u32)
    requires
        bytes@.len() >= 4,
    ensures
        n == be_u32(bytes@),
{
    let b0: u32 = bytes[0] as u32;
    let b1: u32 = bytes[1] as u32;
    let b2: u32 = bytes[2] as u32;
    let b3: u32 = bytes[3] as u32;
    b0 * 16777216 + b1 * 65536 + b2 * 256 + b3
}

/// The four bytes that write `n`, the highest byte first.
pub fn u32_to_bytes(n: u32) -> (bytes: [u8; 4])
    ensures
        bytes@ == be_bytes(n as int),
        be_u32(bytes@) == n,
{
    let bytes = [
        (n / 16777216 % 256) as u8,
        (n / 65536 % 256) as u8,
        (n / 256 % 256) as u8,
        (n % 256) as u8,
    ];
    assert(bytes@ =~= be_bytes(n as int));
    bytes
}

/// Reads the next frame from the bytes that have come in.
pub fn receive_message(buffer: &[u8]) -> (step: FrameStep)
    ensures
        step@ == frame_step(buffer@),
{
    if buffer.len() < 4 {
        return FrameStep::NeedMore;
    }
    let message_size = bytes_to_u32(buffer);
    if message_size == 0 {
        return FrameStep::Complete(Message::KeepAlive, 4);
    }
    if ((buffer.len() - 4) as u64) < message_size as u64 {
        return FrameStep::NeedMore;
    }
    let end: usize = 4 + message_size as usize;
    match identify_message(buffer[4], slice_subrange(buffer, 5, end)) {
        Ok(m) => FrameStep::Complete(m, end),
        Err(_) => FrameStep::Unknown(end),
    }
}

impl Message {
    /// The frame that carries this message, as long as its payload is
    /// short enough for its length to be written in four bytes.
    pub fn to_frame(&self) -> (frame: Vec<u8>)
        requires
            self@.payload().len() < u32::MAX,
        ensures
            frame@ == frame_of(self@),
    {
        let mut frame: Vec<u8> = Vec::new();
        let id: u8 = match self {
            Message::Choke => 0,
            Message::Unchoke => 1,
            Message::Interested => 2,
            Message::NotInterested => 3,
            Message::Have => 4,
            Message::Bitfield(_) => 5,
            Message::Request => 6,
            Message::Piece => 7,
            Message::Cancel => 8,
            Message::KeepAlive => {
                let zero = u32_to_bytes(0);
                frame.extend_from_slice(zero.as_slice());
                assert(frame@ =~= frame_of(self@));
                return frame;
            },
        };
        let payload_len: usize = match self {
            Message::Bitfield(b) => b.len(),
            _ => 0,
        };
        let size = u32_to_bytes(1 + payload_len as u32);
        frame.extend_from_slice(size.as_slice());
        frame.push(id);
        match self {
            Message::Bitfield(b) => {
                frame.extend_from_slice(b.as_slice());
            },
            _ => {},
        }
        assert(frame@ =~= frame_of(self@));
        frame
    }
}

/// The frame of a message, with whatever follows it, reads as that message
/// and takes the frame and no more. So a bitfield of any length comes out
/// with exactly its bytes, and a keep-alive takes its four bytes and none
/// behind them.
pub proof fn lemma_frame_round_trip(m: MessageView, rest: Seq<u8>)
    requires
        m.payload().len() < u32::MAX,
    ensures
        frame_step(frame_of(m) + rest) == FrameStepView::Complete(m, frame_of(m).len() as int),
{
    let buffer = frame_of(m) + rest;
    match m.id() {
        None => {
            assert(be_u32(buffer) == 0);
        },
        Some(id) => {
            let size = 1 + m.payload().len() as int;
            lemma_be_round_trip(size);
            assert(be_u32(buffer) == be_u32(be_bytes(size)));
            assert(buffer[4] == id);
            assert(buffer.subrange(5, 4 + size) =~= m.payload());
        },
    }
}

/// Four bytes written for a number below 2^32 read as that number.
pub proof fn lemma_be_round_trip(n: int)
    requires
        0 <= n <= u32::MAX,
    ensures
        be_u32(be_bytes(n)) == n,
{
}

/// Takes the first `bytes_to_read` bytes off `pending`, or nothing where
/// fewer have come in.
pub fn read_n(pending: &mut Vec<u8>, bytes_to_read: u32) -> (r: Option<Vec<u8>>)
    ensures
        match r {
            Some(segment) => bytes_to_read <= old(pending)@.len() && segment@ == old(pending)@.subrange(0, bytes_to_read as int) && final(pending)@ == old(pending)@.subrange(
                bytes_to_read as int,
                old(pending)@.len() as int,
            ),
            None => bytes_to_read > old(pending)@.len() && final(pending)@ == old(pending)@,
        },
{
    if (pending.len() as u64) < bytes_to_read as u64 {
        return None;
    }
    let mut rest = pending.split_off(bytes_to_read as usize);
    std::mem::swap(pending, &mut rest);
    Some(rest)
}

/// Reads one segment of `bytes_to_read` bytes from what has come in. A
/// segment that is not yet whole is waited for (`Ok(None)`) while the
/// connection is open; once the connection is closed it is a failure.
pub fn read_n_to_buf(pending: &mut Vec<u8>, bytes_to_read: u32, closed: bool) -> (r: Result<
    Option<Vec<u8>>,
    HandshakeError,
>)
    ensures
        bytes_to_read <= old(pending)@.len() ==> r is Ok && r->Ok_0 is Some && r->Ok_0->Some_0@
            == old(pending)@.subrange(0, bytes_to_read as int) && final(pending)@ == old(pending)@.subrange(bytes_to_read as int, old(pending)@.len() as int),
        bytes_to_read > old(pending)@.len() ==> final(pending)@ == old(pending)@ && r == (if closed {
            Err::<Option<Vec<u8>>, HandshakeError>(HandshakeError::ConnectionClosed)
        } else {
            Ok::<Option<Vec<u8>>, HandshakeError>(None)
        }),
{
    match read_n(pending, bytes_to_read) {
        Some(segment) => Ok(Some(segment)),
        None => if closed {
            Err(HandshakeError::ConnectionClosed)
        } else {
            Ok(None)
        },
    }
}

/// How far a conversation has come.
#[derive(Clone, Copy, Debug, PartialEq, Eq, Structural)]
pub enum Phase {
    /// The peer's handshake is awaited.
    Handshaking,
    /// The handshake was accepted; messages are read.
    Established,
    /// The conversation is over.
    Ended,
}

/// Why a conversation ended.
#[derive(Clone, Copy, Debug, PartialEq, Eq, Structural)]
pub enum ConversationError {
    /// The connection was closed in the middle of a handshake or a frame.
    ConnectionClosed,
    /// The peer's handshake names other content.
    IdentifierMismatch,
    /// A frame whose id stands for no message.
    UnknownMessageType,
}

/// What the one who drives a conversation is to do next.
#[derive(Clone, Debug, PartialEq, Eq)]
pub enum Action {
    /// Read more from the transport.
    Wait,
    /// The handshake was accepted: the peer can be registered.
    Established,
    /// Hand this message on.
    Deliver(Message),
    /// Give the conversation up.
    Fail(ConversationError),
}

/// `Action` as a plain mathematical value.
pub enum ActionView {
    Wait,
    Established,
    Deliver(MessageView),
    Fail(ConversationError),
}

impl View for Action {
    type V = ActionView;

    open spec fn view(&self) -> ActionView {
        match self {
            Action::Wait => ActionView::Wait,
            Action::Established => ActionView::Established,
            Action::Deliver(m) => ActionView::Deliver(m@),
            Action::Fail(e) => ActionView::Fail(*e),
        }
    }
}

/// The receiving side of the conversation with one peer: what has come in
/// and was not yet taken, and how far the conversation is.
#[derive(Clone, Debug, PartialEq, Eq)]
pub struct Conversation {
    phase: Phase,
    pending: Vec<u8>,
    info_hash: Vec<u8>,
}

/// A conversation as plain mathematical values.
pub struct ConversationView {
    pub phase: Phase,
    pub pending: Seq<u8>,
    pub info_hash: Seq<u8>,
}

impl View for Conversation {
    type V = ConversationView;

    closed spec fn view(&self) -> ConversationView {
        ConversationView {
            phase: self.phase,
            pending: self.pending@,
            info_hash: self.info_hash@,
        }
    }
}

impl ConversationView {
    /// The conversation after one step, and what the step asks for. While
    /// the handshake is awaited, the step is that of `handshake_step`; once
    /// it is accepted, that of `frame_step`. What a step reads is taken off
    /// the pending bytes. A rejected handshake and a frame with an unknown
    /// id end the conversation.
    pub open spec fn advance(self) -> (ConversationView, ActionView) {
        match self.phase {
            Phase::Ended => (self, ActionView::Wait),
            Phase::Handshaking => match handshake_step(self.pending, self.info_hash) {
                HandshakeStep::NeedMore => (self, ActionView::Wait),
                HandshakeStep::Rejected => (
                    ConversationView { phase: Phase::Ended, ..self },
                    ActionView::Fail(ConversationError::IdentifierMismatch),
                ),
                HandshakeStep::Accepted(n) => (
                    ConversationView {
                        phase: Phase::Established,
                        pending: self.pending.subrange(n as int, self.pending.len() as int),
                        ..self
                    },
                    ActionView::Established,
                ),
            },
            Phase::Established => match frame_step(self.pending) {
                FrameStepView::NeedMore => (self, ActionView::Wait),
                FrameStepView::Complete(m, n) => (
                    ConversationView {
                        pending: self.pending.subrange(n, self.pending.len() as int),
                        ..self
                    },
                    ActionView::Deliver(m),
                ),
                FrameStepView::Unknown(_) => (
                    ConversationView { phase: Phase::Ended, ..self },
                    ActionView::Fail(ConversationError::UnknownMessageType),
                ),
            },
        }
    }

    /// The conversation once `chunk` has come in: it stands behind what was
    /// pending, unless the conversation is over.
    pub open spec fn receive(self, chunk: Seq<u8>) -> ConversationView {
        if self.phase == Phase::Ended {
            self
        } else {
            ConversationView { pending: self.pending + chunk, ..self }
        }
    }

    /// What the closing of the connection means: a failure in the middle
    /// of the handshake or of a frame, and nothing otherwise.
    pub open spec fn close(self) -> Option<ConversationError> {
        match self.phase {
            Phase::Handshaking => Some(ConversationError::ConnectionClosed),
            Phase::Established => if self.pending.len() > 0 {
                Some(ConversationError::ConnectionClosed)
            } else {
                None
            },
            Phase::Ended => None,
        }
    }
}

impl Conversation {
    /// A conversation about the content that `info_hash` identifies, before
    /// anything has come in.
    pub fn new(info_hash: Vec<u8>) -> (c: Conversation)
        ensures
            c@ == (ConversationView {
                phase: Phase::Handshaking,
                pending: Seq::empty(),
                info_hash: info_hash@,
            }),
    {
        Conversation { phase: Phase::Handshaking, pending: Vec::new(), info_hash }
    }

    /// How far the conversation is.
    pub fn phase(&self) -> (p: Phase)
        ensures
            p == self@.phase,
    {
        self.phase
    }

    /// Takes in what the transport has read. However the bytes of the
    /// peer are cut into reads, the pending bytes are the same. A
    /// conversation that is over takes nothing in.
    pub fn receive(&mut self, chunk: &[u8])
        ensures
            final(self)@ == old(self)@.receive(chunk@),
    {
        match self.phase {
            Phase::Ended => {},
            _ => {
                self.pending.extend_from_slice(chunk);
                assert(self@.pending == old(self)@.pending + chunk@);
            },
        }
    }

    /// Makes one step with what has come in and says what to do next.
    pub fn advance(&mut self) -> (action: Action)
        ensures
            final(self)@ == old(self)@.advance().0,
            action@ == old(self)@.advance().1,
    {
        match self.phase {
            Phase::Ended => Action::Wait,
            Phase::Handshaking => match receive_handshake(
                self.pending.as_slice(),
                self.info_hash.as_slice(),
            ) {
                HandshakeStep::NeedMore => Action::Wait,
                HandshakeStep::Rejected => {
                    self.phase = Phase::Ended;
                    Action::Fail(ConversationError::IdentifierMismatch)
                },
                HandshakeStep::Accepted(n) => {
                    let _ = read_n(&mut self.pending, n as u32);
                    self.phase = Phase::Established;
                    Action::Established
                },
            },
            Phase::Established => match receive_message(self.pending.as_slice()) {
                FrameStep::NeedMore => Action::Wait,
                FrameStep::Complete(m, n) => {
                    let mut rest = self.pending.split_off(n);
                    std::mem::swap(&mut self.pending, &mut rest);
                    Action::Deliver(m)
                },
                FrameStep::Unknown(_) => {
                    self.phase = Phase::Ended;
                    Action::Fail(ConversationError::UnknownMessageType)
                },
            },
        }
    }

    /// Ends the conversation because the connection was closed, and says
    /// whether that was a failure.
    pub fn close(&mut self) -> (r: Option<ConversationError>)
        ensures
            r == old(self)@.close(),
            final(self)@ == (ConversationView { phase: Phase::Ended, ..old(self)@ }),
    {
        let r = match self.phase {
            Phase::Handshaking => Some(ConversationError::ConnectionClosed),
            Phase::Established => if self.pending.len() > 0 {
                Some(ConversationError::ConnectionClosed)
            } else {
                None
            },
            Phase::Ended => None,
        };
        self.phase = Phase::Ended;
        r
    }
}

/// A peer that accepted the handshake.
#[derive(Clone, Debug, PartialEq, Eq)]
pub struct PeerConnection {
    /// The id under which the peer is registered.
    pub id: PeerId,
    pub peer: Peer,
    /// The pieces that the peer has, as it last told; empty before it did.
    pub bitfield: Vec<u8>,
}

/// How the attempt to reach a peer ended.
#[derive(Clone, Copy, Debug, PartialEq, Eq, Structural)]
pub enum ConnectOutcome {
    /// The transport is open and the handshake was accepted.
    Connected,
    /// The peer did not accept the connection within the timeout.
    TimedOut,
    /// The peer refused the connection.
    Refused,
    /// The transport was opened, and closed again after the handshake failed.
    HandshakeFailed(HandshakeError),
}

/// A peer and how the attempt to reach it ended.
#[derive(Clone, Copy, Debug, PartialEq, Eq)]
pub struct ConnectAttempt {
    pub peer: Peer,
    pub outcome: ConnectOutcome,
}

/// The peers that were reached, and the registry of their conversations.
#[derive(Clone, Debug, PartialEq, Eq)]
pub struct PeerConnections {
    pub connections: Vec<PeerConnection>,
    pub manager: ConnectionManager,
}

/// The peers among the first `n` of `attempts` that were reached, in the
/// order of the attempts.
pub open spec fn reached(attempts: Seq<ConnectAttempt>, n: nat) -> Seq<Peer>
    decreases n,
{
    if n == 0 || n > attempts.len() {
        Seq::empty()
    } else if attempts[n - 1].outcome == ConnectOutcome::Connected {
        reached(attempts, (n - 1) as nat).push(attempts[n - 1].peer)
    } else {
        reached(attempts, (n - 1) as nat)
    }
}

impl PeerConnection {
    /// The connection to `peer`, registered under `id`, before the peer
    /// has said which pieces it has.
    pub fn new(peer: Peer, id: PeerId) -> (c: PeerConnection)
        ensures
            c.id == id,
            c.peer == peer,
            c.bitfield@ == Seq::<u8>::empty(),
    {
        PeerConnection { id, peer, bitfield: Vec::new() }
    }

    /// Takes note of a message from the peer: a bitfield replaces what was
    /// known of the peer's pieces, any other message changes nothing.
    pub fn handle(&mut self, msg: Message)
        ensures
            final(self).id == old(self).id,
            final(self).peer == old(self).peer,
            final(self).bitfield@ == (match msg@ {
                MessageView::Bitfield(b) => b,
                _ => old(self).bitfield@,
            }),
    {
        match message_handler(msg) {
            Some(bitfield) => {
                self.bitfield = bitfield;
            },
            None => {},
        }
    }
}

/// Registers the peers that were reached, in the order of the attempts,
/// and passes over the others: a peer that timed out, refused or failed the
/// handshake is no error.
pub fn connect_to_peers(attempts: &Vec<ConnectAttempt>) -> (set: PeerConnections)
    ensures
        set.connections@.len() == reached(attempts@, attempts@.len()).len(),
        forall|i: int|
            0 <= i < set.connections@.len() ==> {
                let c = #[trigger] set.connections@[i];
                c.peer == reached(attempts@, attempts@.len())[i] && c.id@ == i && c.bitfield@
                    == Seq::<u8>::empty()
            },
        set.manager@ == fresh_manager(set.connections@.len()),
        set.manager@.wf(),
{
    let mut connected_peers: Vec<PeerConnection> = Vec::new();
    let mut manager = ConnectionManager::new();
    let mut k: usize = 0;
    assert(manager@.slots =~= fresh_manager(0).slots);
    while k < attempts.len()
        invariant
            k <= attempts@.len(),
            connected_peers@.len() <= k,
            connected_peers@.len() == reached(attempts@, k as nat).len(),
            forall|i: int|
                0 <= i < connected_peers@.len() ==> {
                    let c = #[trigger] connected_peers@[i];
                    c.peer == reached(attempts@, k as nat)[i] && c.id@ == i && c.bitfield@
                        == Seq::<u8>::empty()
                },
            manager@ == fresh_manager(connected_peers@.len()),
            manager@.wf(),
        decreases attempts@.len() - k,
    {
        let attempt = attempts[k];
        match attempt.outcome {
            ConnectOutcome::Connected => {
                let ghost n = connected_peers@.len();
                assert(manager@.next_id < u64::MAX);
                if let Some(id) = manager.add_connection() {
                    connected_peers.push(PeerConnection::new(attempt.peer, id));
                    assert(manager@.slots =~= fresh_manager(n + 1).slots);
                }
            },
            _ => {},
        }
        k += 1;
    }
    PeerConnections { connections: connected_peers, manager }
}

/// The pairs `v` as plain values.
pub open spec fn tagged_view(v: Seq<(PeerId, Message)>) -> Seq<(u64, MessageView)> {
    Seq::new(v.len(), |i: int| (v[i].0@, v[i].1@))
}

impl PeerConnections {
    /// Takes every message that has been received and not yet taken, each
    /// with the peer it came from: peer by peer in the order of
    /// registration, the messages of a peer in the order in which it sent
    /// them. Nothing else of the registry changes.
    pub fn received_messages(&mut self) -> (messages: Vec<(PeerId, Message)>)
        ensures
            tagged_view(messages@) == waiting_messages(
                old(self).manager@.slots,
                old(self).manager@.slots.len(),
            ),
            final(self).manager@ == old(self).manager@.drained(),
            final(self).connections == old(self).connections,
            old(self).manager@.wf() ==> final(self).manager@.wf(),
    {
        let mut messages: Vec<(PeerId, Message)> = Vec::new();
        let ghost start = self.manager@;
        assert(tagged_view(messages@) + waiting_messages(start.slots, start.slots.len())
            =~= waiting_messages(start.slots, start.slots.len()));
        loop
            invariant
                self.connections == old(self).connections,
                start == old(self).manager@,
                start.wf() ==> self.manager@.wf(),
                self.manager@.slots.len() == start.slots.len(),
                self.manager@.next_id == start.next_id,
                taken_all(self.manager@.slots) == taken_all(start.slots),
                tagged_view(messages@) + waiting_messages(
                    self.manager@.slots,
                    self.manager@.slots.len(),
                ) == waiting_messages(start.slots, start.slots.len()),
            decreases waiting_messages(self.manager@.slots, self.manager@.slots.len()).len(),
        {
            let ghost before = self.manager@;
            let ghost taken = tagged_view(messages@);
            proof {
                lemma_next_takes_first(before);
            }
            match self.manager.next_message() {
                NextMessage::Message(id, message) => {
                    messages.push((id, message));
                    proof {
                        assert(tagged_view(messages@) =~= taken.push((id@, message@)));
                        assert(tagged_view(messages@) + waiting_messages(
                            self.manager@.slots,
                            self.manager@.slots.len(),
                        ) =~= taken + waiting_messages(before.slots, before.slots.len()));
                    }
                },
                _ => {
                    proof {
                        assert(tagged_view(messages@) =~= waiting_messages(
                            start.slots,
                            start.slots.len(),
                        ));
                    }
                    return messages;
                },
            }
        }
    }
}

/// However the bytes of a peer are cut into reads, the conversation takes
/// in the same: two reads one after the other are one read of both.
pub proof fn lemma_receive_split(c: ConversationView, first: Seq<u8>, second: Seq<u8>)
    ensures
        c.receive(first).receive(second) == c.receive(first + second),
{
    assert(c.pending + first + second =~= c.pending + (first + second));
}

} // verus!
