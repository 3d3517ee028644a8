//! What holds of a registry over its whole life: what comes out under an
//! id is what the conversation of that peer handed in, in the same order,
//! and nothing comes out under an id that no peer was registered with.

use crate::message::MessageView;
use crate::split_stream::{
    fresh_manager, lemma_next_from_registered, lemma_slot_index, lemma_update_wf, slot_index,
    ManagerView, NextMessageView, SlotView, OUTBOUND_CAPACITY,
};
use vstd::prelude::*;

verus! {

/// One thing that happens to a registry.
pub enum Event {
    /// `add_connection`.
    Register,
    /// `deliver` of a message for an id.
    Deliver(u64, MessageView),
    /// `close_connection` of an id.
    Close(u64),
    /// `next_message`.
    Next,
    /// `send` of a message to an id.
    Send(u64, MessageView),
    /// `take_outbound` of an id.
    TakeOutbound(u64),
}

/// The registry after `e` happened to `m`.
pub open spec fn apply(m: ManagerView, e: Event) -> ManagerView {
    match e {
        Event::Register => m.register(),
        Event::Deliver(id, message) => m.deliver(id, message),
        Event::Close(id) => m.close(id),
        Event::Next => m.next().0,
        Event::Send(id, message) => m.send(id, message),
        Event::TakeOutbound(id) => m.take_outbound(id),
    }
}

/// The registry after `events` happened to `m`, one after the other.
pub open spec fn run(m: ManagerView, events: Seq<Event>) -> ManagerView
    decreases events.len(),
{
    if events.len() == 0 {
        m
    } else {
        apply(run(m, events.drop_last()), events.last())
    }
}

/// What `e` hands in for `id` when it happens to `m`: the message of a
/// `Deliver` for this id that the registry takes.
pub open spec fn step_in(m: ManagerView, e: Event, id: u64) -> Seq<MessageView> {
    match e {
        Event::Deliver(to, message) => if to == id && m.has(id) && m.slot(id).open {
            seq![message]
        } else {
            Seq::empty()
        },
        _ => Seq::empty(),
    }
}

/// What `e` hands out under `id` when it happens to `m`: the message of a
/// `Next` that comes out with this id.
pub open spec fn step_out(m: ManagerView, e: Event, id: u64) -> Seq<MessageView> {
    match e {
        Event::Next => match m.next().1 {
            NextMessageView::Message(from, message) => if from == id {
                seq![message]
            } else {
                Seq::empty()
            },
            _ => Seq::empty(),
        },
        _ => Seq::empty(),
    }
}

/// The messages that the conversation with `id` handed in while `events`
/// happened to `m`, oldest first.
pub open spec fn handed_in(m: ManagerView, events: Seq<Event>, id: u64) -> Seq<MessageView>
    decreases events.len(),
{
    if events.len() == 0 {
        Seq::empty()
    } else {
        handed_in(m, events.drop_last(), id) + step_in(
            run(m, events.drop_last()),
            events.last(),
            id,
        )
    }
}

/// The messages that came out under `id` while `events` happened to `m`,
/// in the order in which they came out.
pub open spec fn handed_out(m: ManagerView, events: Seq<Event>, id: u64) -> Seq<MessageView>
    decreases events.len(),
{
    if events.len() == 0 {
        Seq::empty()
    } else {
        handed_out(m, events.drop_last(), id) + step_out(
            run(m, events.drop_last()),
            events.last(),
            id,
        )
    }
}

/// The received messages that wait under `id`, oldest first; none for an
/// id that is not registered.
pub open spec fn waiting_of(m: ManagerView, id: u64) -> Seq<MessageView> {
    if m.has(id) {
        m.slot(id).inbound
    } else {
        Seq::empty()
    }
}

/// Whether no peer is registered in the course of `events`.
pub open spec fn no_registration(events: Seq<Event>) -> bool {
    forall|i: int| 0 <= i < events.len() ==> !(#[trigger] events[i] is Register)
}

/// The place of a slot depends on the ids alone.
proof fn lemma_slot_index_ids(a: Seq<SlotView>, b: Seq<SlotView>, id: u64, from: int)
    requires
        a.len() == b.len(),
        forall|k: int| 0 <= k < a.len() ==> (#[trigger] a[k]).id == b[k].id,
        0 <= from,
    ensures
        slot_index(a, id, from) == slot_index(b, id, from),
    decreases a.len() - from,
{
    if from < a.len() && a[from].id != id {
        lemma_slot_index_ids(a, b, id, from + 1);
    }
}

/// Replacing the slot of a registered peer touches that slot alone: the
/// same peers are registered, each with the slot it had, but for the one
/// replaced.
proof fn lemma_with_slot(m: ManagerView, slot: SlotView, id: u64)
    requires
        m.has(slot.id),
    ensures
        m.with_slot(slot).has(id) == m.has(id),
        m.with_slot(slot).next_id == m.next_id,
        m.has(id) ==> m.with_slot(slot).slot(id) == (if id == slot.id {
            slot
        } else {
            m.slot(id)
        }),
        m.wf() && slot.outbound.len() <= OUTBOUND_CAPACITY ==> m.with_slot(slot).wf(),
{
    let i = slot_index(m.slots, slot.id, 0);
    lemma_slot_index(m.slots, slot.id, 0);
    let after = m.slots.update(i, slot);
    lemma_slot_index_ids(m.slots, after, id, 0);
    lemma_slot_index(m.slots, id, 0);
    if m.wf() && slot.outbound.len() <= OUTBOUND_CAPACITY {
        lemma_update_wf(m, i, slot);
    }
}

/// The place of a slot once a slot was added at the end.
proof fn lemma_slot_index_push(slots: Seq<SlotView>, slot: SlotView, id: u64, from: int)
    requires
        0 <= from <= slots.len(),
    ensures
        slot_index(slots.push(slot), id, from) == (if slot_index(slots, id, from) < slots.len() {
            slot_index(slots, id, from)
        } else if slot.id == id {
            slots.len() as int
        } else {
            slots.len() as int + 1
        }),
    decreases slots.len() - from,
{
    let longer = slots.push(slot);
    if from < slots.len() {
        assert(longer[from] == slots[from]);
        if slots[from].id != id {
            lemma_slot_index_push(slots, slot, id, from + 1);
        }
    } else {
        assert(longer[from] == slot);
        assert(slot_index(longer, id, from + 1) == from + 1);
    }
}

/// Registering a peer leaves every other peer as it was, and the new one
/// has received nothing.
proof fn lemma_register(m: ManagerView, id: u64)
    requires
        m.wf(),
    ensures
        m.register().wf(),
        m.has(id) ==> m.register().has(id),
        waiting_of(m.register(), id) == waiting_of(m, id),
{
    if m.next_id < u64::MAX {
        let fresh = SlotView {
            id: m.next_id,
            inbound: Seq::empty(),
            outbound: Seq::empty(),
            open: true,
        };
        let after = m.add();
        lemma_slot_index_push(m.slots, fresh, id, 0);
        lemma_slot_index(m.slots, id, 0);
        let i = slot_index(m.slots, id, 0);
        if i < m.slots.len() {
            assert(after.slots[i] == m.slots[i]);
        } else if id == m.next_id {
            assert(after.slots[m.slots.len() as int] == fresh);
        }
        assert forall|a: int| 0 <= a < after.slots.len() implies (#[trigger] after.slots[a]).id
            < after.next_id by {
            if a < m.slots.len() {
                assert(after.slots[a] == m.slots[a]);
            }
        }
        assert forall|a: int, b: int| 0 <= a < b < after.slots.len() implies (
        #[trigger] after.slots[a]).id != (#[trigger] after.slots[b]).id by {
            assert(after.slots[a] == m.slots[a]);
            if b < m.slots.len() {
                assert(after.slots[b] == m.slots[b]);
            }
        }
        assert forall|a: int| 0 <= a < after.slots.len() implies (
        #[trigger] after.slots[a]).outbound.len() <= OUTBOUND_CAPACITY by {
            if a < m.slots.len() {
                assert(after.slots[a] == m.slots[a]);
            }
        }
    }
}

/// One event keeps the registry well formed and every peer registered,
/// and what waits under an id afterwards is what waited before, with what
/// was handed in behind it and what was handed out taken off its front.
pub proof fn lemma_step(m: ManagerView, e: Event, id: u64)
    requires
        m.wf(),
    ensures
        apply(m, e).wf(),
        m.has(id) ==> apply(m, e).has(id),
        !(e is Register) ==> apply(m, e).has(id) == m.has(id),
        step_out(m, e, id).len() > 0 ==> m.has(id),
        waiting_of(m, id) + step_in(m, e, id) == step_out(m, e, id) + waiting_of(apply(m, e), id),
{
    match e {
        Event::Register => {
            lemma_register(m, id);
            assert(waiting_of(m, id) + step_in(m, e, id) =~= step_out(m, e, id) + waiting_of(
                apply(m, e),
                id,
            ));
        },
        Event::Deliver(to, message) => {
            if m.has(to) && m.slot(to).open {
                let slot = SlotView { inbound: m.slot(to).inbound.push(message), ..m.slot(to) };
                lemma_slot_index(m.slots, to, 0);
                lemma_with_slot(m, slot, id);
            }
            assert(waiting_of(m, id) + step_in(m, e, id) =~= step_out(m, e, id) + waiting_of(
                apply(m, e),
                id,
            ));
        },
        Event::Close(to) => {
            if m.has(to) {
                let slot = SlotView { open: false, outbound: Seq::empty(), ..m.slot(to) };
                lemma_slot_index(m.slots, to, 0);
                lemma_with_slot(m, slot, id);
            }
            assert(waiting_of(m, id) + step_in(m, e, id) =~= step_out(m, e, id) + waiting_of(
                apply(m, e),
                id,
            ));
        },
        Event::Next => {
            lemma_next_from_registered(m);
            match m.next().1 {
                NextMessageView::Message(from, message) => {
                    let slot = SlotView {
                        inbound: m.slot(from).inbound.drop_first(),
                        ..m.slot(from)
                    };
                    lemma_slot_index(m.slots, from, 0);
                    lemma_with_slot(m, slot, id);
                    if from == id {
                        assert(m.slot(id).inbound =~= seq![message] + m.slot(
                            id,
                        ).inbound.drop_first());
                    }
                },
                _ => {},
            }
            assert(waiting_of(m, id) + step_in(m, e, id) =~= step_out(m, e, id) + waiting_of(
                apply(m, e),
                id,
            ));
        },
        Event::Send(to, message) => {
            if m.send_result(to) is Ok {
                let slot = SlotView { outbound: m.slot(to).outbound.push(message), ..m.slot(to) };
                lemma_slot_index(m.slots, to, 0);
                lemma_with_slot(m, slot, id);
            }
            assert(waiting_of(m, id) + step_in(m, e, id) =~= step_out(m, e, id) + waiting_of(
                apply(m, e),
                id,
            ));
        },
        Event::TakeOutbound(to) => {
            if m.has(to) && m.slot(to).outbound.len() > 0 {
                let slot = SlotView { outbound: m.slot(to).outbound.drop_first(), ..m.slot(to) };
                lemma_slot_index(m.slots, to, 0);
                lemma_with_slot(m, slot, id);
            }
            assert(waiting_of(m, id) + step_in(m, e, id) =~= step_out(m, e, id) + waiting_of(
                apply(m, e),
                id,
            ));
        },
    }
}

/// Whatever happens to a well-formed registry, in whatever order: what has
/// come out under an id, followed by what still waits under it, is what
/// waited at the start followed by what the conversation of that peer
/// handed in since. So the messages of a peer come out in the order in
/// which the peer sent them, none is lost and none is made up.
pub proof fn lemma_stream_is_fifo(m: ManagerView, events: Seq<Event>, id: u64)
    requires
        m.wf(),
    ensures
        run(m, events).wf(),
        m.has(id) ==> run(m, events).has(id),
        no_registration(events) ==> run(m, events).has(id) == m.has(id),
        waiting_of(m, id) + handed_in(m, events, id) == handed_out(m, events, id) + waiting_of(
            run(m, events),
            id,
        ),
    decreases events.len(),
{
    if events.len() == 0 {
        assert(waiting_of(m, id) + handed_in(m, events, id) =~= handed_out(m, events, id)
            + waiting_of(run(m, events), id));
    } else {
        let earlier = events.drop_last();
        let before = run(m, earlier);
        lemma_stream_is_fifo(m, earlier, id);
        lemma_step(before, events.last(), id);
        if no_registration(events) {
            assert forall|i: int| 0 <= i < earlier.len() implies !(
            #[trigger] earlier[i] is Register) by {
                assert(earlier[i] == events[i]);
            }
            assert(!(events[events.len() - 1] is Register));
        }
        assert(waiting_of(m, id) + handed_in(m, events, id) =~= (waiting_of(m, id) + handed_in(
            m,
            earlier,
            id,
        )) + step_in(before, events.last(), id));
        assert(handed_out(m, events, id) + waiting_of(run(m, events), id) =~= handed_out(
            m,
            earlier,
            id,
        ) + (step_out(before, events.last(), id) + waiting_of(run(m, events), id)));
        assert(handed_out(m, earlier, id) + (waiting_of(before, id) + step_in(
            before,
            events.last(),
            id,
        )) =~= (handed_out(m, earlier, id) + waiting_of(before, id)) + step_in(
            before,
            events.last(),
            id,
        ));
    }
}

/// Nothing is handed in or comes out under an id that is not registered
/// at the end: a peer that was never reached never shows.
pub proof fn lemma_unregistered_is_silent(m: ManagerView, events: Seq<Event>, id: u64)
    requires
        m.wf(),
        !run(m, events).has(id),
    ensures
        handed_in(m, events, id) == Seq::<MessageView>::empty(),
        handed_out(m, events, id) == Seq::<MessageView>::empty(),
    decreases events.len(),
{
    if events.len() > 0 {
        let earlier = events.drop_last();
        let before = run(m, earlier);
        lemma_stream_is_fifo(m, earlier, id);
        lemma_step(before, events.last(), id);
        lemma_unregistered_is_silent(m, earlier, id);
        assert(handed_in(m, events, id) =~= Seq::<MessageView>::empty());
        assert(handed_out(m, events, id) =~= Seq::<MessageView>::empty());
    }
}

/// The registry of `n` peers is well formed, its peers have the ids below
/// `n`, and none of them has received anything.
pub proof fn lemma_fresh_manager(n: nat, id: u64)
    requires
        n <= u64::MAX,
    ensures
        fresh_manager(n).wf(),
        fresh_manager(n).has(id) == (id < n),
        waiting_of(fresh_manager(n), id) == Seq::<MessageView>::empty(),
{
    let m = fresh_manager(n);
    lemma_slot_index(m.slots, id, 0);
    let i = slot_index(m.slots, id, 0);
    if id < n {
        assert(m.slots[id as int].id == id);
        if i >= m.slots.len() {
            assert(m.slots[id as int].id != id);
        }
    }
}

/// Of a registry made of the `n` peers that were reached, as long as no
/// further peer is added: whatever comes out comes out under the id of one
/// of these peers, and what has come out under an id, with what still
/// waits under it, is what the conversation of that peer handed in, in the
/// same order. A peer that was not reached has no id, and nothing comes
/// out for it.
pub proof fn lemma_stream_of_reached_peers(n: nat, events: Seq<Event>, id: u64)
    requires
        n <= u64::MAX,
        no_registration(events),
    ensures
        handed_in(fresh_manager(n), events, id) == handed_out(fresh_manager(n), events, id)
            + waiting_of(run(fresh_manager(n), events), id),
        id >= n ==> handed_out(fresh_manager(n), events, id) == Seq::<MessageView>::empty(),
{
    let m = fresh_manager(n);
    lemma_fresh_manager(n, id);
    lemma_stream_is_fifo(m, events, id);
    assert(waiting_of(m, id) + handed_in(m, events, id) =~= handed_in(m, events, id));
    if id >= n {
        lemma_unregistered_is_silent(m, events, id);
    }
}

} // verus!
