//! The registry of peer conversations: one queue of received messages and
//! one bounded queue of messages to send for each peer, and a single place
//! to take received messages from.

pub mod laws;

use crate::message::{Message, MessageView};
use vstd::prelude::*;

verus! {

/// How many messages may wait to be sent to one peer.
pub const OUTBOUND_CAPACITY: usize = 1024;

/// Names a registered peer. Never sent over the wire.
#[derive(Copy, Clone, Debug, PartialEq, Eq, PartialOrd, Ord, Hash, Structural)]
pub struct PeerId(u64);

impl View for PeerId {
    type V = u64;

    closed spec fn view(&self) -> u64 {
        self.0
    }
}

impl PeerId {
    /// The number behind this id.
    pub fn value(&self) -> (n: u64)
        ensures
            n == self@,
    {
        self.0
    }
}

/// What the registry keeps for one peer.
#[derive(Clone, Debug, PartialEq, Eq)]
struct Slot {
    id: PeerId,
    inbound: Vec<Message>,
    outbound: Vec<Message>,
    open: bool,
}

/// The state of one peer's slot as plain mathematical values.
pub struct SlotView {
    pub id: u64,
    /// Received and not yet taken, oldest first.
    pub inbound: Seq<MessageView>,
    /// Waiting to be sent, oldest first.
    pub outbound: Seq<MessageView>,
    /// Whether the conversation is still going on.
    pub open: bool,
}

/// The registry of peer conversations.
#[derive(Clone, Debug, PartialEq, Eq)]
pub struct ConnectionManager {
    /// One slot for each peer, in the order of registration: the order in
    /// which `next_message` looks for a message.
    slots: Vec<Slot>,
    next_id: u64,
}

/// The registry as plain mathematical values.
pub struct ManagerView {
    /// One slot for each registered peer, in the order of registration.
    pub slots: Seq<SlotView>,
    /// The number that the next id will have.
    pub next_id: u64,
}

/// What `next_message` found.
#[derive(Clone, Debug, PartialEq, Eq)]
pub enum NextMessage {
    /// A message, and the peer it came from.
    Message(PeerId, Message),
    /// Nothing has come in, but a conversation is still going on.
    Pending,
    /// Nothing has come in and every conversation is over.
    EndOfStream,
}

/// `NextMessage` as a plain mathematical value.
pub enum NextMessageView {
    Message(u64, MessageView),
    Pending,
    EndOfStream,
}

impl View for NextMessage {
    type V = NextMessageView;

    open spec fn view(&self) -> NextMessageView {
        match self {
            NextMessage::Message(id, m) => NextMessageView::Message(id@, m@),
            NextMessage::Pending => NextMessageView::Pending,
            NextMessage::EndOfStream => NextMessageView::EndOfStream,
        }
    }
}

/// Why a message was not queued.
#[derive(Clone, Copy, Debug, PartialEq, Eq, Structural)]
pub enum SendError {
    /// No peer is registered under the id.
    UnknownPeer,
    /// The conversation with the peer is over.
    Closed,
    /// The queue is full: wait until the conversation has sent something.
    Full,
}

/// The messages `v` as plain values.
spec fn messages_view(v: Seq<Message>) -> Seq<MessageView> {
    Seq::new(v.len(), |i: int| v[i]@)
}

/// The slot `s` as plain values.
spec fn slot_view(s: Slot) -> SlotView {
    SlotView {
        id: s.id@,
        inbound: messages_view(s.inbound@),
        outbound: messages_view(s.outbound@),
        open: s.open,
    }
}

impl View for ConnectionManager {
    type V = ManagerView;

    closed spec fn view(&self) -> ManagerView {
        ManagerView {
            slots: Seq::new(self.slots@.len(), |i: int| slot_view(self.slots@[i])),
            next_id: self.next_id,
        }
    }
}

/// The registry that holds `n` peers, none of which has received or is to
/// send anything.
pub open spec fn fresh_manager(n: nat) -> ManagerView {
    ManagerView {
        slots: Seq::new(
            n,
            |i: int|
                SlotView {
                    id: i as u64,
                    inbound: Seq::empty(),
                    outbound: Seq::empty(),
                    open: true,
                },
        ),
        next_id: n as u64,
    }
}

/// The place of the slot with the id `id` at or after `from`, or the
/// number of slots where there is none.
pub open spec fn slot_index(slots: Seq<SlotView>, id: u64, from: int) -> int
    decreases slots.len() - from,
{
    if 0 <= from < slots.len() && slots[from].id != id {
        slot_index(slots, id, from + 1)
    } else {
        from
    }
}

/// The place of the first slot at or after `from` that holds a received
/// message, or the number of slots where there is none.
pub open spec fn ready_index(slots: Seq<SlotView>, from: int) -> int
    decreases slots.len() - from,
{
    if 0 <= from < slots.len() && slots[from].inbound.len() == 0 {
        ready_index(slots, from + 1)
    } else {
        from
    }
}

/// Whether a conversation is still going on.
pub open spec fn any_open(slots: Seq<SlotView>) -> bool {
    exists|i: int| 0 <= i < slots.len() && #[trigger] slots[i].open
}

impl ManagerView {
    /// What holds of every registry: each slot has an id below the next
    /// one to be given, no two slots have the same id, and no more than
    /// `OUTBOUND_CAPACITY` messages wait to be sent to a peer.
    pub open spec fn wf(self) -> bool {
        &&& forall|i: int| 0 <= i < self.slots.len() ==> (#[trigger] self.slots[i]).id < self.next_id
        &&& forall|i: int, j: int|
            0 <= i < j < self.slots.len() ==> (#[trigger] self.slots[i]).id != (
            #[trigger] self.slots[j]).id
        &&& forall|i: int|
            0 <= i < self.slots.len() ==> (#[trigger] self.slots[i]).outbound.len()
                <= OUTBOUND_CAPACITY
    }

    /// Whether a peer is registered under `id`.
    pub open spec fn has(self, id: u64) -> bool {
        slot_index(self.slots, id, 0) < self.slots.len()
    }

    /// The slot of the peer registered under `id`.
    pub open spec fn slot(self, id: u64) -> SlotView {
        self.slots[slot_index(self.slots, id, 0)]
    }

    /// The registry with `slot` in place of the slot of its peer.
    pub open spec fn with_slot(self, slot: SlotView) -> ManagerView {
        ManagerView { slots: self.slots.update(slot_index(self.slots, slot.id, 0), slot), ..self }
    }

    /// The registry after a peer was registered: a new slot at the end,
    /// open and with empty queues, under the next id.
    pub open spec fn add(self) -> ManagerView {
        ManagerView {
            slots: self.slots.push(
                SlotView {
                    id: self.next_id,
                    inbound: Seq::empty(),
                    outbound: Seq::empty(),
                    open: true,
                },
            ),
            next_id: (self.next_id + 1) as u64,
        }
    }

    /// The registry after the attempt to register a peer: `add`, unless
    /// every id has been given out.
    pub open spec fn register(self) -> ManagerView {
        if self.next_id < u64::MAX {
            self.add()
        } else {
            self
        }
    }

    /// The registry after the conversation with `id` handed in `message`:
    /// the message stands behind those that the peer sent before. Nothing
    /// is taken for an id that is not registered or whose conversation is
    /// over.
    pub open spec fn deliver(self, id: u64, message: MessageView) -> ManagerView {
        if self.has(id) && self.slot(id).open {
            self.with_slot(
                SlotView { inbound: self.slot(id).inbound.push(message), ..self.slot(id) },
            )
        } else {
            self
        }
    }

    /// The registry after the conversation with `id` ended: what it had
    /// received stays, what waited to be sent is dropped.
    pub open spec fn close(self, id: u64) -> ManagerView {
        if self.has(id) {
            self.with_slot(SlotView { open: false, outbound: Seq::empty(), ..self.slot(id) })
        } else {
            self
        }
    }

    /// Whether a message for `id` can be queued, and why not.
    pub open spec fn send_result(self, id: u64) -> Result<(), SendError> {
        if !self.has(id) {
            Err(SendError::UnknownPeer)
        } else if !self.slot(id).open {
            Err(SendError::Closed)
        } else if self.slot(id).outbound.len() >= OUTBOUND_CAPACITY {
            Err(SendError::Full)
        } else {
            Ok(())
        }
    }

    /// The registry after `message` was to be queued for `id`: behind the
    /// messages that wait for this peer, where it can be queued.
    pub open spec fn send(self, id: u64, message: MessageView) -> ManagerView {
        if self.send_result(id) is Ok {
            self.with_slot(
                SlotView { outbound: self.slot(id).outbound.push(message), ..self.slot(id) },
            )
        } else {
            self
        }
    }

    /// The registry after the oldest message that waits to be sent to `id`
    /// was taken, where there is one.
    pub open spec fn take_outbound(self, id: u64) -> ManagerView {
        if self.has(id) && self.slot(id).outbound.len() > 0 {
            self.with_slot(
                SlotView { outbound: self.slot(id).outbound.drop_first(), ..self.slot(id) },
            )
        } else {
            self
        }
    }

    /// The registry with every received message taken.
    pub open spec fn drained(self) -> ManagerView {
        ManagerView { slots: taken_all(self.slots), ..self }
    }

    /// What taking the next received message gives, and the registry after
    /// it: the oldest message of the first peer, in the order of
    /// registration, that has one; where no peer has one, `Pending` while
    /// a conversation goes on and `EndOfStream` once all are over.
    pub open spec fn next(self) -> (ManagerView, NextMessageView) {
        let i = ready_index(self.slots, 0);
        if i < self.slots.len() {
            let slot = self.slots[i];
            (
                ManagerView {
                    slots: self.slots.update(
                        i,
                        SlotView { inbound: slot.inbound.drop_first(), ..slot },
                    ),
                    ..self
                },
                NextMessageView::Message(slot.id, slot.inbound[0]),
            )
        } else if any_open(self.slots) {
            (self, NextMessageView::Pending)
        } else {
            (self, NextMessageView::EndOfStream)
        }
    }
}

impl ConnectionManager {
    /// A registry without peers.
    pub fn new() -> (m: ConnectionManager)
        ensures
            m@ == (ManagerView { slots: Seq::empty(), next_id: 0 }),
            m@.wf(),
    {
        let m = ConnectionManager { slots: Vec::new(), next_id: 0 };
        assert(m@.slots =~= Seq::<SlotView>::empty());
        m
    }

    /// Number of peers registered.
    pub fn len(&self) -> (n: usize)
        ensures
            n == self@.slots.len(),
    {
        self.slots.len()
    }

    /// The place of the slot of `id`, or the number of slots.
    fn find(&self, id: PeerId) -> (i: usize)
        ensures
            i == slot_index(self@.slots, id@, 0),
            i <= self.slots@.len(),
            i < self.slots@.len() ==> self.slots@[i as int].id == id,
    {
        let mut i: usize = 0;
        while i < self.slots.len() && self.slots[i].id.0 != id.0
            invariant
                i <= self.slots@.len(),
                slot_index(self@.slots, id@, 0) == slot_index(self@.slots, id@, i as int),
            decreases self.slots@.len() - i,
        {
            i += 1;
        }
        i
    }

    /// Registers a peer whose handshake was accepted, under an id that no
    /// peer had before. The only way to get `None` is to have given out
    /// every id there is.
    pub fn add_connection(&mut self) -> (r: Option<PeerId>)
        ensures
            final(self)@ == old(self)@.register(),
            match r {
                Some(id) => old(self)@.next_id < u64::MAX && id@ == old(self)@.next_id,
                None => old(self)@.next_id == u64::MAX,
            },
            old(self)@.wf() ==> final(self)@.wf(),
    {
        if self.next_id == u64::MAX {
            return None;
        }
        let id = PeerId(self.next_id);
        self.slots.push(Slot { id, inbound: Vec::new(), outbound: Vec::new(), open: true });
        self.next_id = self.next_id + 1;
        proof {
            assert(messages_view(Seq::<Message>::empty()) =~= Seq::<MessageView>::empty());
            assert(self@.slots =~= old(self)@.add().slots);
            if old(self)@.wf() {
                assert forall|i: int| 0 <= i < self@.slots.len() implies (
                #[trigger] self@.slots[i]).id < self@.next_id by {
                    if i < old(self)@.slots.len() {
                        assert(self@.slots[i] == old(self)@.slots[i]);
                    }
                }
                assert forall|i: int, j: int| 0 <= i < j < self@.slots.len() implies (
                #[trigger] self@.slots[i]).id != (#[trigger] self@.slots[j]).id by {
                    assert(self@.slots[i] == old(self)@.slots[i]);
                    if j < old(self)@.slots.len() {
                        assert(self@.slots[j] == old(self)@.slots[j]);
                    }
                }
                assert forall|i: int| 0 <= i < self@.slots.len() implies (
                #[trigger] self@.slots[i]).outbound.len() <= OUTBOUND_CAPACITY by {
                    if i < old(self)@.slots.len() {
                        assert(self@.slots[i] == old(self)@.slots[i]);
                    }
                }
            }
        }
        Some(id)
    }

    /// Puts the slot `slot` in the place `i`.
    fn put(&mut self, i: usize, slot: Slot)
        requires
            i < old(self).slots@.len(),
        ensures
            final(self)@ == (ManagerView {
                slots: old(self)@.slots.update(i as int, slot_view(slot)),
                ..old(self)@
            }),
    {
        self.slots[i] = slot;
        assert(self@.slots =~= old(self)@.slots.update(i as int, slot_view(slot)));
    }

    /// Takes the slot in the place `i` out, leaving an empty one.
    fn take(&mut self, i: usize) -> (slot: Slot)
        requires
            i < old(self).slots@.len(),
        ensures
            slot == old(self).slots@[i as int],
            slot_view(slot) == old(self)@.slots[i as int],
            final(self).slots@.len() == old(self).slots@.len(),
            final(self).next_id == old(self).next_id,
            forall|k: int|
                0 <= k < old(self).slots@.len() && k != i ==> final(self).slots@[k] == old(self).slots@[k],
    {
        let id = self.slots[i].id;
        let mut slot = Slot { id, inbound: Vec::new(), outbound: Vec::new(), open: false };
        std::mem::swap(&mut self.slots[i], &mut slot);
        slot
    }

    /// Hands a message that the conversation with `id` has received to the
    /// registry, behind those that the peer sent before. Says whether it
    /// was taken: it is not where no peer has this id or its conversation
    /// is over.
    pub fn deliver(&mut self, id: PeerId, message: Message) -> (taken: bool)
        ensures
            taken == (old(self)@.has(id@) && old(self)@.slot(id@).open),
            final(self)@ == old(self)@.deliver(id@, message@),
            old(self)@.wf() ==> final(self)@.wf(),
    {
        let i = self.find(id);
        if i >= self.slots.len() || !self.slots[i].open {
            return false;
        }
        let ghost before = self@;
        let mut slot = self.take(i);
        slot.inbound.push(message);
        proof {
            assert(slot_view(slot).inbound =~= before.slots[i as int].inbound.push(message@));
            assert(slot_view(slot).outbound =~= before.slots[i as int].outbound);
        }
        self.put(i, slot);
        proof {
            assert(self@.slots =~= before.slots.update(i as int, slot_view(slot)));
            if before.wf() {
                lemma_update_wf(before, i as int, slot_view(slot));
            }
        }
        true
    }

    /// Marks the conversation with `id` as over. What it had received
    /// stays to be taken; what waited to be sent is dropped.
    pub fn close_connection(&mut self, id: PeerId)
        ensures
            final(self)@ == old(self)@.close(id@),
            old(self)@.wf() ==> final(self)@.wf(),
    {
        let i = self.find(id);
        if i >= self.slots.len() {
            return ;
        }
        let ghost before = self@;
        let mut slot = self.take(i);
        slot.open = false;
        slot.outbound = Vec::new();
        proof {
            assert(slot_view(slot).inbound =~= before.slots[i as int].inbound);
            assert(slot_view(slot).outbound =~= Seq::<MessageView>::empty());
        }
        self.put(i, slot);
        proof {
            assert(self@.slots =~= before.slots.update(i as int, slot_view(slot)));
            if before.wf() {
                lemma_update_wf(before, i as int, slot_view(slot));
            }
        }
    }

    /// The next received message of any peer. Messages of one peer come in
    /// the order in which the peer sent them; between peers no order is
    /// promised.
    pub fn next_message(&mut self) -> (r: NextMessage)
        ensures
            final(self)@ == old(self)@.next().0,
            r@ == old(self)@.next().1,
            old(self)@.wf() ==> final(self)@.wf(),
    {
        let mut i: usize = 0;
        while i < self.slots.len() && self.slots[i].inbound.len() == 0
            invariant
                i <= self.slots@.len(),
                ready_index(self@.slots, 0) == ready_index(self@.slots, i as int),
            decreases self.slots@.len() - i,
        {
            i += 1;
        }
        if i < self.slots.len() {
            let ghost before = self@;
            let mut slot = self.take(i);
            let message = slot.inbound.remove(0);
            let id = slot.id;
            proof {
                assert(slot_view(slot).inbound =~= before.slots[i as int].inbound.drop_first());
                assert(slot_view(slot).outbound =~= before.slots[i as int].outbound);
                assert(before.slots[i as int].inbound[0] == message@);
            }
            self.put(i, slot);
            proof {
                assert(self@.slots =~= before.slots.update(i as int, slot_view(slot)));
                if before.wf() {
                    lemma_update_wf(before, i as int, slot_view(slot));
                }
            }
            return NextMessage::Message(id, message);
        }
        let mut k: usize = 0;
        let mut open = false;
        while k < self.slots.len() && !open
            invariant
                k <= self.slots@.len(),
                open ==> any_open(self@.slots),
                !open ==> forall|j: int| 0 <= j < k ==> !(#[trigger] self@.slots[j]).open,
            decreases self.slots@.len() - k, (if open { 0int } else { 1int }),
        {
            if self.slots[k].open {
                assert(self@.slots[k as int].open);
                open = true;
            } else {
                k += 1;
            }
        }
        if open {
            NextMessage::Pending
        } else {
            NextMessage::EndOfStream
        }
    }

    /// Queues a message to be sent to `id`. A queue that is full takes no
    /// more until the conversation has sent something, and a conversation
    /// that is over takes nothing: nothing is dropped in silence.
    pub fn send(&mut self, id: PeerId, message: Message) -> (r: Result<(), SendError>)
        ensures
            r == old(self)@.send_result(id@),
            final(self)@ == old(self)@.send(id@, message@),
            old(self)@.wf() ==> final(self)@.wf(),
    {
        let i = self.find(id);
        if i >= self.slots.len() {
            return Err(SendError::UnknownPeer);
        }
        if !self.slots[i].open {
            return Err(SendError::Closed);
        }
        if self.slots[i].outbound.len() >= OUTBOUND_CAPACITY {
            return Err(SendError::Full);
        }
        let ghost before = self@;
        let mut slot = self.take(i);
        slot.outbound.push(message);
        proof {
            assert(slot_view(slot).inbound =~= before.slots[i as int].inbound);
            assert(slot_view(slot).outbound =~= before.slots[i as int].outbound.push(message@));
        }
        self.put(i, slot);
        proof {
            assert(self@.slots =~= before.slots.update(i as int, slot_view(slot)));
            if before.wf() {
                lemma_update_wf(before, i as int, slot_view(slot));
            }
        }
        Ok(())
    }

    /// Takes the oldest message that waits to be sent to `id`, for the
    /// conversation to write it to the transport.
    pub fn take_outbound(&mut self, id: PeerId) -> (r: Option<Message>)
        ensures
            final(self)@ == old(self)@.take_outbound(id@),
            match r {
                Some(m) => old(self)@.has(id@) && old(self)@.slot(id@).outbound.len() > 0 && m@
                    == old(self)@.slot(id@).outbound[0],
                None => !old(self)@.has(id@) || old(self)@.slot(id@).outbound.len() == 0,
            },
            old(self)@.wf() ==> final(self)@.wf(),
    {
        let i = self.find(id);
        if i >= self.slots.len() || self.slots[i].outbound.len() == 0 {
            return None;
        }
        let ghost before = self@;
        let mut slot = self.take(i);
        let message = slot.outbound.remove(0);
        proof {
            assert(slot_view(slot).inbound =~= before.slots[i as int].inbound);
            assert(slot_view(slot).outbound =~= before.slots[i as int].outbound.drop_first());
            assert(before.slots[i as int].outbound[0] == message@);
        }
        self.put(i, slot);
        proof {
            assert(self@.slots =~= before.slots.update(i as int, slot_view(slot)));
            if before.wf() {
                lemma_update_wf(before, i as int, slot_view(slot));
            }
        }
        Some(message)
    }

    /// Whether the conversation with `id` is still going on.
    pub fn is_open(&self, id: PeerId) -> (open: bool)
        ensures
            open == (self@.has(id@) && self@.slot(id@).open),
    {
        let i = self.find(id);
        i < self.slots.len() && self.slots[i].open
    }
}

/// A registry stays well formed when a slot is replaced by one with the
/// same id and no more messages to send than before.
pub proof fn lemma_update_wf(m: ManagerView, i: int, slot: SlotView)
    requires
        m.wf(),
        0 <= i < m.slots.len(),
        slot.id == m.slots[i].id,
        slot.outbound.len() <= OUTBOUND_CAPACITY,
    ensures
        (ManagerView { slots: m.slots.update(i, slot), ..m }).wf(),
{
    let r = ManagerView { slots: m.slots.update(i, slot), ..m };
    assert forall|a: int| 0 <= a < r.slots.len() implies (#[trigger] r.slots[a]).id
        < r.next_id by {
        assert(m.slots[a].id < m.next_id);
    }
    assert forall|a: int, b: int| 0 <= a < b < r.slots.len() implies (#[trigger] r.slots[a]).id
        != (#[trigger] r.slots[b]).id by {
        assert(m.slots[a].id != m.slots[b].id);
    }
    assert forall|a: int| 0 <= a < r.slots.len() implies (#[trigger] r.slots[a]).outbound.len()
        <= OUTBOUND_CAPACITY by {
        assert(m.slots[a].outbound.len() <= OUTBOUND_CAPACITY);
    }
}

/// Where `slot_index` stops: on the first slot with the id, or behind the
/// last slot.
pub proof fn lemma_slot_index(slots: Seq<SlotView>, id: u64, from: int)
    requires
        0 <= from <= slots.len(),
    ensures
        from <= slot_index(slots, id, from) <= slots.len(),
        slot_index(slots, id, from) < slots.len() ==> slots[slot_index(slots, id, from)].id == id,
        forall|k: int| from <= k < slot_index(slots, id, from) ==> (#[trigger] slots[k]).id != id,
    decreases slots.len() - from,
{
    if from < slots.len() && slots[from].id != id {
        lemma_slot_index(slots, id, from + 1);
    }
}

/// A message that the registry hands out comes from a registered peer,
/// and it is the oldest that this peer's conversation handed in and that
/// was not yet taken: nothing surfaces that no registered peer sent.
pub proof fn lemma_next_from_registered(m: ManagerView)
    requires
        m.wf(),
    ensures
        m.next().1 matches NextMessageView::Message(id, message) ==> m.has(id) && m.slot(
            id,
        ).inbound.len() > 0 && m.slot(id).inbound[0] == message && m.next().0 == m.with_slot(
            SlotView { inbound: m.slot(id).inbound.drop_first(), ..m.slot(id) },
        ),
{
    let i = ready_index(m.slots, 0);
    lemma_ready_bounds(m.slots, 0);
    if i < m.slots.len() {
        let id = m.slots[i].id;
        lemma_slot_index(m.slots, id, 0);
        let j = slot_index(m.slots, id, 0);
        if j < i {
            assert(m.slots[j].id != m.slots[i].id);
        }
        assert(j == i);
    }
}

/// Where `ready_index` stops: on the first slot that holds a message, or
/// behind the last slot.
pub proof fn lemma_ready_bounds(slots: Seq<SlotView>, from: int)
    requires
        0 <= from <= slots.len(),
    ensures
        from <= ready_index(slots, from) <= slots.len(),
        ready_index(slots, from) < slots.len() ==> slots[ready_index(slots, from)].inbound.len()
            > 0,
        forall|k: int|
            from <= k < ready_index(slots, from) ==> (#[trigger] slots[k]).inbound.len() == 0,
    decreases slots.len() - from,
{
    if from < slots.len() && slots[from].inbound.len() == 0 {
        lemma_ready_bounds(slots, from + 1);
    }
}

/// The messages `messages`, each with the id `id`.
pub open spec fn tagged(id: u64, messages: Seq<MessageView>) -> Seq<(u64, MessageView)> {
    Seq::new(messages.len(), |i: int| (id, messages[i]))
}

/// Every received message that waits in the first `n` slots: slot by slot
/// in the order of registration, the messages of a slot oldest first, each
/// with the id of its slot.
pub open spec fn waiting_messages(slots: Seq<SlotView>, n: nat) -> Seq<(u64, MessageView)>
    decreases n,
{
    if n == 0 || n > slots.len() {
        Seq::empty()
    } else {
        waiting_messages(slots, (n - 1) as nat) + tagged(slots[n - 1].id, slots[n - 1].inbound)
    }
}

/// The slots with no received message left in them.
pub open spec fn taken_all(slots: Seq<SlotView>) -> Seq<SlotView> {
    Seq::new(slots.len(), |i: int| SlotView { inbound: Seq::empty(), ..slots[i] })
}

/// Where none of the first `n` slots holds a message, none waits in them.
proof fn lemma_waiting_none(slots: Seq<SlotView>, n: nat)
    requires
        n <= slots.len(),
        forall|k: int| 0 <= k < n ==> (#[trigger] slots[k]).inbound.len() == 0,
    ensures
        waiting_messages(slots, n) == Seq::<(u64, MessageView)>::empty(),
    decreases n,
{
    if n > 0 {
        lemma_waiting_none(slots, (n - 1) as nat);
        assert(slots[n - 1].inbound.len() == 0);
        assert(waiting_messages(slots, n) =~= Seq::<(u64, MessageView)>::empty());
    }
}

/// Taking the oldest message of the first slot that holds one takes the
/// first of the waiting messages and leaves the others as they stand.
proof fn lemma_waiting_pop(slots: Seq<SlotView>, i: int, n: nat)
    requires
        0 <= i < n <= slots.len(),
        forall|k: int| 0 <= k < i ==> (#[trigger] slots[k]).inbound.len() == 0,
        slots[i].inbound.len() > 0,
    ensures
        waiting_messages(slots, n) == seq![(slots[i].id, slots[i].inbound[0])] + waiting_messages(
            slots.update(i, SlotView { inbound: slots[i].inbound.drop_first(), ..slots[i] }),
            n,
        ),
    decreases n,
{
    let popped = SlotView { inbound: slots[i].inbound.drop_first(), ..slots[i] };
    let after = slots.update(i, popped);
    if n == i + 1 {
        lemma_waiting_none(slots, i as nat);
        assert forall|k: int| 0 <= k < i implies (#[trigger] after[k]).inbound.len() == 0 by {
            assert(after[k] == slots[k]);
        }
        lemma_waiting_none(after, i as nat);
        assert(tagged(slots[i].id, slots[i].inbound) =~= seq![(slots[i].id, slots[i].inbound[0])]
            + tagged(popped.id, popped.inbound));
        assert(waiting_messages(slots, n) =~= seq![(slots[i].id, slots[i].inbound[0])]
            + waiting_messages(after, n));
    } else {
        lemma_waiting_pop(slots, i, (n - 1) as nat);
        assert(after[n - 1] == slots[n - 1]);
        assert(waiting_messages(slots, n) =~= seq![(slots[i].id, slots[i].inbound[0])]
            + waiting_messages(after, n));
    }
}

/// What `next` hands out is the first of the waiting messages, and the
/// others stay waiting in their order. Where it hands out none, none
/// waits.
pub proof fn lemma_next_takes_first(m: ManagerView)
    ensures
        m.next().0.slots.len() == m.slots.len(),
        m.next().0.next_id == m.next_id,
        taken_all(m.next().0.slots) == taken_all(m.slots),
        match m.next().1 {
            NextMessageView::Message(id, message) => waiting_messages(m.slots, m.slots.len())
                == seq![(id, message)] + waiting_messages(m.next().0.slots, m.slots.len()),
            _ => waiting_messages(m.slots, m.slots.len()) == Seq::<(u64, MessageView)>::empty()
                && taken_all(m.slots) == m.slots,
        },
{
    lemma_ready_bounds(m.slots, 0);
    let i = ready_index(m.slots, 0);
    if i < m.slots.len() {
        lemma_waiting_pop(m.slots, i, m.slots.len());
        assert(taken_all(m.next().0.slots) =~= taken_all(m.slots));
    } else {
        lemma_waiting_none(m.slots, m.slots.len());
        assert forall|k: int| 0 <= k < m.slots.len() implies taken_all(m.slots)[k]
            == m.slots[k] by {
            assert(m.slots[k].inbound =~= Seq::<MessageView>::empty());
        }
        assert(taken_all(m.slots) =~= m.slots);
    }
}

} // verus!
