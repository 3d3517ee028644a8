use plenty_of_fluids::message::Message;
use plenty_of_fluids::split_stream::{
    ConnectionManager, NextMessage, PeerId, SendError, OUTBOUND_CAPACITY,
};

#[test]
fn ids_are_fresh_and_ordered() {
    let mut manager = ConnectionManager::new();
    assert_eq!(manager.len(), 0);
    let a: PeerId = manager.add_connection().unwrap();
    let b: PeerId = manager.add_connection().unwrap();
    let c: PeerId = manager.add_connection().unwrap();
    assert_eq!(manager.len(), 3);
    assert!(a != b && b != c && a != c);
    assert!(a < b && b < c);
    assert_eq!((a.value(), b.value(), c.value()), (0, 1, 2));
}

#[test]
fn empty_manager_is_at_the_end_of_the_stream() {
    let mut manager = ConnectionManager::new();
    assert_eq!(manager.next_message(), NextMessage::EndOfStream);
}

#[test]
fn messages_of_one_peer_come_in_order() {
    let mut manager = ConnectionManager::new();
    let a = manager.add_connection().unwrap();
    assert_eq!(manager.next_message(), NextMessage::Pending);
    assert!(manager.deliver(a, Message::Bitfield(vec![1])));
    assert!(manager.deliver(a, Message::Unchoke));
    assert!(manager.deliver(a, Message::Have));
    assert_eq!(manager.next_message(), NextMessage::Message(a, Message::Bitfield(vec![1])));
    assert_eq!(manager.next_message(), NextMessage::Message(a, Message::Unchoke));
    assert!(manager.deliver(a, Message::Choke));
    assert_eq!(manager.next_message(), NextMessage::Message(a, Message::Have));
    assert_eq!(manager.next_message(), NextMessage::Message(a, Message::Choke));
    assert_eq!(manager.next_message(), NextMessage::Pending);
}

#[test]
fn messages_of_several_peers_keep_their_own_order() {
    let mut manager = ConnectionManager::new();
    let a = manager.add_connection().unwrap();
    let b = manager.add_connection().unwrap();
    manager.deliver(b, Message::Interested);
    manager.deliver(a, Message::Choke);
    manager.deliver(b, Message::NotInterested);
    manager.deliver(a, Message::Unchoke);
    let mut from_a = Vec::new();
    let mut from_b = Vec::new();
    loop {
        match manager.next_message() {
            NextMessage::Message(id, m) if id == a => from_a.push(m),
            NextMessage::Message(_, m) => from_b.push(m),
            NextMessage::Pending => break,
            NextMessage::EndOfStream => panic!("conversations are still open"),
        }
    }
    assert_eq!(from_a, vec![Message::Choke, Message::Unchoke]);
    assert_eq!(from_b, vec![Message::Interested, Message::NotInterested]);
}

#[test]
fn end_of_stream_once_all_conversations_are_over() {
    let mut manager = ConnectionManager::new();
    let a = manager.add_connection().unwrap();
    let b = manager.add_connection().unwrap();
    manager.deliver(a, Message::Choke);
    manager.close_connection(a);
    assert!(!manager.is_open(a));
    assert!(manager.is_open(b));
    // what had come in before the end is still handed out
    assert_eq!(manager.next_message(), NextMessage::Message(a, Message::Choke));
    assert_eq!(manager.next_message(), NextMessage::Pending);
    manager.close_connection(b);
    assert_eq!(manager.next_message(), NextMessage::EndOfStream);
    assert_eq!(manager.next_message(), NextMessage::EndOfStream);
}

#[test]
fn a_peer_can_be_added_while_messages_are_taken() {
    let mut manager = ConnectionManager::new();
    let a = manager.add_connection().unwrap();
    manager.deliver(a, Message::Choke);
    assert_eq!(manager.next_message(), NextMessage::Message(a, Message::Choke));
    manager.close_connection(a);
    assert_eq!(manager.next_message(), NextMessage::EndOfStream);
    let b = manager.add_connection().unwrap();
    assert_eq!(manager.next_message(), NextMessage::Pending);
    manager.deliver(b, Message::Unchoke);
    assert_eq!(manager.next_message(), NextMessage::Message(b, Message::Unchoke));
}

#[test]
fn deliver_to_an_ended_or_unknown_peer_is_not_taken() {
    let mut manager = ConnectionManager::new();
    let a = manager.add_connection().unwrap();
    let mut other = ConnectionManager::new();
    other.add_connection();
    let stranger = other.add_connection().unwrap();
    assert!(!manager.deliver(stranger, Message::Choke));
    manager.close_connection(a);
    assert!(!manager.deliver(a, Message::Choke));
    manager.close_connection(stranger);
    assert_eq!(manager.next_message(), NextMessage::EndOfStream);
}

#[test]
fn outbound_queue_is_first_in_first_out() {
    let mut manager = ConnectionManager::new();
    let a = manager.add_connection().unwrap();
    let b = manager.add_connection().unwrap();
    assert_eq!(manager.take_outbound(a), None);
    assert_eq!(manager.send(a, Message::Interested), Ok(()));
    assert_eq!(manager.send(b, Message::Choke), Ok(()));
    assert_eq!(manager.send(a, Message::Request), Ok(()));
    assert_eq!(manager.take_outbound(a), Some(Message::Interested));
    assert_eq!(manager.take_outbound(a), Some(Message::Request));
    assert_eq!(manager.take_outbound(a), None);
    assert_eq!(manager.take_outbound(b), Some(Message::Choke));
}

#[test]
fn outbound_queue_is_bounded() {
    assert_eq!(OUTBOUND_CAPACITY, 1024);
    let mut manager = ConnectionManager::new();
    let a = manager.add_connection().unwrap();
    for _ in 0..OUTBOUND_CAPACITY {
        assert_eq!(manager.send(a, Message::KeepAlive), Ok(()));
    }
    assert_eq!(manager.send(a, Message::Interested), Err(SendError::Full));
    assert_eq!(manager.take_outbound(a), Some(Message::KeepAlive));
    assert_eq!(manager.send(a, Message::Interested), Ok(()));
    assert_eq!(manager.send(a, Message::Interested), Err(SendError::Full));
}

#[test]
fn send_to_an_ended_or_unknown_peer_fails() {
    let mut manager = ConnectionManager::new();
    let a = manager.add_connection().unwrap();
    let mut other = ConnectionManager::new();
    other.add_connection();
    let stranger = other.add_connection().unwrap();
    assert_eq!(manager.send(stranger, Message::Choke), Err(SendError::UnknownPeer));
    assert_eq!(manager.take_outbound(stranger), None);
    assert_eq!(manager.send(a, Message::Choke), Ok(()));
    manager.close_connection(a);
    assert_eq!(manager.send(a, Message::Choke), Err(SendError::Closed));
    // what waited to be sent is dropped with the conversation
    assert_eq!(manager.take_outbound(a), None);
}
