//! The messages that peers exchange, and their place on the wire.

use vstd::prelude::*;

verus! {

/// A message of the peer wire protocol.
#[derive(Clone, Debug, PartialEq, Eq)]
pub enum Message {
    Choke,
    Unchoke,
    Interested,
    NotInterested,
    Have,
    Bitfield(Vec<u8>),
    Request,
    Piece,
    Cancel,
    KeepAlive,
}

/// A message as a plain mathematical value.
pub enum MessageView {
    Choke,
    Unchoke,
    Interested,
    NotInterested,
    Have,
    Bitfield(Seq<u8>),
    Request,
    Piece,
    Cancel,
    KeepAlive,
}

/// Why a frame is no message.
#[derive(Clone, Copy, Debug, PartialEq, Eq, Structural)]
pub enum FrameError {
    /// The message id is none of 0 to 8.
    UnknownMessageType,
}

impl View for Message {
    type V = MessageView;

    open spec fn view(&self) -> MessageView {
        match self {
            Message::Choke => MessageView::Choke,
            Message::Unchoke => MessageView::Unchoke,
            Message::Interested => MessageView::Interested,
            Message::NotInterested => MessageView::NotInterested,
            Message::Have => MessageView::Have,
            Message::Bitfield(b) => MessageView::Bitfield(b@),
            Message::Request => MessageView::Request,
            Message::Piece => MessageView::Piece,
            Message::Cancel => MessageView::Cancel,
            Message::KeepAlive => MessageView::KeepAlive,
        }
    }
}

impl MessageView {
    /// The id that stands for this message on the wire; a keep-alive has
    /// none.
    pub open spec fn id(self) -> Option<u8> {
        match self {
            MessageView::Choke => Some(0u8),
            MessageView::Unchoke => Some(1u8),
            MessageView::Interested => Some(2u8),
            MessageView::NotInterested => Some(3u8),
            MessageView::Have => Some(4u8),
            MessageView::Bitfield(_) => Some(5u8),
            MessageView::Request => Some(6u8),
            MessageView::Piece => Some(7u8),
            MessageView::Cancel => Some(8u8),
            MessageView::KeepAlive => None,
        }
    }

    /// The bytes that this message carries behind its id.
    pub open spec fn payload(self) -> Seq<u8> {
        match self {
            MessageView::Bitfield(b) => b,
            _ => Seq::empty(),
        }
    }
}

/// The message with the id `message_id` and, where it carries any, the
/// payload `body`; `UnknownMessageType` for an id above 8.
pub open spec fn message_of(message_id: u8, body: Seq<u8>) -> Result<MessageView, FrameError> {
    if message_id == 0 {
        Ok(MessageView::Choke)
    } else if message_id == 1 {
        Ok(MessageView::Unchoke)
    } else if message_id == 2 {
        Ok(MessageView::Interested)
    } else if message_id == 3 {
        Ok(MessageView::NotInterested)
    } else if message_id == 4 {
        Ok(MessageView::Have)
    } else if message_id == 5 {
        Ok(MessageView::Bitfield(body))
    } else if message_id == 6 {
        Ok(MessageView::Request)
    } else if message_id == 7 {
        Ok(MessageView::Piece)
    } else if message_id == 8 {
        Ok(MessageView::Cancel)
    } else {
        Err(FrameError::UnknownMessageType)
    }
}

/// Tells the message by its id. Of the bytes behind the id only a bitfield
/// keeps any, and it keeps them all.
pub fn identify_message(message_id: u8, message_body: &[u8]) -> (r: Result<Message, FrameError>)
    ensures
        match message_of(message_id, message_body@) {
            Ok(m) => r is Ok && r->Ok_0@ == m,
            Err(e) => r == Err::<Message, FrameError>(e),
        },
{
    match message_id {
        0 => Ok(Message::Choke),
        1 => Ok(Message::Unchoke),
        2 => Ok(Message::Interested),
        3 => Ok(Message::NotInterested),
        4 => Ok(Message::Have),
        5 => Ok(Message::Bitfield(vstd::slice::slice_to_vec(message_body))),
        6 => Ok(Message::Request),
        7 => Ok(Message::Piece),
        8 => Ok(Message::Cancel),
        _ => Err(FrameError::UnknownMessageType),
    }
}

/// The bitfield as it came.
fn bitfield_handler(bitfield: Vec<u8>) -> (out: Vec<u8>)
    ensures
        out@ == bitfield@,
{
    bitfield
}

/// What a message has for the one who keeps track of a peer's pieces: the
/// bitfield of a bitfield message, and nothing of any other.
pub fn message_handler(msg: Message) -> (r: Option<Vec<u8>>)
    ensures
        match msg@ {
            MessageView::Bitfield(b) => r is Some && r->Some_0@ == b,
            _ => r is None,
        },
{
    match msg {
        Message::Bitfield(body) => Some(bitfield_handler(body)),
        _ => None,
    }
}

} // verus!
