//! Core of a peer-to-peer file-transfer client: the bencoding codec, the
//! content identifier, the tracker announce, the peer wire protocol and the
//! bookkeeping of peer conversations.

pub mod codec;
pub mod decimal;
pub mod decoder;
pub mod hash;
pub mod message;
pub mod order;
pub mod parser;
pub mod peer_connection;
pub mod split_stream;
pub mod text;
pub mod tracker;
