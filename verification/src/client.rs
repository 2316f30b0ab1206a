//! The messaging client: it sends text messages towards their recipients through the
//! network of peers, relays those of others, and sends a message again, after longer and
//! longer waits, until it is acknowledged.

pub mod messages;
pub mod protobufs;

use crate::address::Address;
use crate::client::messages::{
    decode, decoded, Envelope, Message, MessageAcknowledgement, MessageView, TextMessage,
};
use crate::hex::HexError;
use crate::network;
use vstd::arithmetic::power2::{lemma2_to64, lemma2_to64_rest, lemma_pow2_strictly_increases, pow2};
use vstd::prelude::*;

verus! {

/// A command for the client to execute immediately.
#[derive(Debug)]
pub enum Task {
    /// Handle events emitted by the network, e.g. handling packets that we receive.
    HandleNetworkEvent(network::Event),
    /// Schedules a message to be delivered.
    ScheduleMessageDelivery(Address, TextMessage),
    /// Shuts down the client. When it has completed the shutdown procedure, it will emit an
    /// `Event::Shutdown`.
    Shutdown,
}

/// A task to be performed some time in the future.
#[derive(Debug)]
pub enum ScheduledTask {
    /// Deliver a message to an address. This can be a message we are sending to someone
    /// else, or just a message we're relaying.
    DeliverMessage(Address, TextMessage),
}

/// Events emitted to the listeners of the client.
#[derive(Clone, Debug)]
pub enum Event {
    /// We've received a message that was addressed to us.
    ReceivedTextMessage(TextMessage),
    /// We've sent or relayed a message.
    SentTextMessage(TextMessage),
    /// We've received an acknowledgement for a message we sent.
    ReceivedMessageAcknowledgement(MessageAcknowledgement),
    /// The client has shut down.
    Shutdown,
}

/// What the client wants done.
pub enum Effect {
    /// Let the listeners know.
    Broadcast(Event),
    /// Have the network send the envelope towards the address.
    SendPacket(Address, Envelope),
    /// Hand the task back after the delay. The timer belongs to the message of the task.
    Schedule { task: ScheduledTask, delay_ms: u64 },
    /// Clear the timer that belongs to the message with the id.
    ClearTimeout(Address),
    /// Have the network shut down.
    ShutdownNetwork,
    /// Stop taking tasks.
    Shutdown,
}

/// What an effect comes to.
pub enum EffectView {
    /// A text message was received: its id, its sender and its text.
    ReceivedTextMessage(Address, Address, Seq<char>),
    /// A text message was sent or relayed.
    SentTextMessage(Address, Address, Seq<char>),
    /// The message with the id was acknowledged.
    ReceivedMessageAcknowledgement(Address),
    /// The client has shut down.
    ShutDown,
    /// The message goes towards the address.
    SendPacket(Address, Address, MessageView),
    /// The text message is to be delivered to the recipient after the delay.
    Schedule { recipient: Address, id: Address, sender: Address, text: Seq<char>, delay_ms: u64 },
    ClearTimeout(Address),
    ShutdownNetwork,
    Shutdown,
}

impl View for Effect {
    type V = EffectView;

    open spec fn view(&self) -> EffectView {
        match *self {
            Effect::Broadcast(Event::ReceivedTextMessage(message)) => EffectView::ReceivedTextMessage(
                message.id,
                message.sender,
                message.text@,
            ),
            Effect::Broadcast(Event::SentTextMessage(message)) => EffectView::SentTextMessage(
                message.id,
                message.sender,
                message.text@,
            ),
            Effect::Broadcast(
                Event::ReceivedMessageAcknowledgement(acknowledgement),
            ) => EffectView::ReceivedMessageAcknowledgement(acknowledgement.message_id),
            Effect::Broadcast(Event::Shutdown) => EffectView::ShutDown,
            Effect::SendPacket(towards, envelope) => EffectView::SendPacket(
                towards,
                envelope.recipient,
                envelope.message@,
            ),
            Effect::Schedule {
                task: ScheduledTask::DeliverMessage(recipient, message),
                delay_ms,
            } => EffectView::Schedule {
                recipient,
                id: message.id,
                sender: message.sender,
                text: message.text@,
                delay_ms,
            },
            Effect::ClearTimeout(id) => EffectView::ClearTimeout(id),
            Effect::ShutdownNetwork => EffectView::ShutdownNetwork,
            Effect::Shutdown => EffectView::Shutdown,
        }
    }
}

/// What each of the effects comes to.
pub open spec fn effect_views(effects: Seq<Effect>) -> Seq<EffectView> {
    effects.map_values(|effect: Effect| effect@)
}

/// The number of milliseconds to wait before a message is delivered that was delivered
/// `delivered` times before: no time the first time, then one second, three, seven, and so
/// on, and never more than the machine can count.
pub open spec fn backoff_delay(delivered: nat) -> u64 {
    if (pow2(delivered) - 1) * 1000 <= u64::MAX {
        ((pow2(delivered) - 1) * 1000) as u64
    } else {
        u64::MAX
    }
}

/// The number of milliseconds to wait before a message is delivered that was delivered
/// `delivered` times before.
pub fn delay_for(delivered: usize) -> (delay_ms: u64)
    ensures
        delay_ms == backoff_delay(delivered as nat),
{
    if delivered > 54 {
        proof {
            lemma2_to64_rest();
            if delivered > 55 {
                lemma_pow2_strictly_increases(55, delivered as nat);
            }
        }
        return u64::MAX;
    }
    let mut power: u64 = 1;
    let mut doubled: usize = 0;
    proof {
        lemma2_to64();
    }
    while doubled < delivered
        invariant
            doubled <= delivered <= 54,
            power == pow2(doubled as nat),
            1 <= power <= 0x40_0000_0000_0000,
        decreases delivered - doubled,
    {
        proof {
            lemma2_to64_rest();
            vstd::arithmetic::power2::lemma_pow2_unfold((doubled + 1) as nat);
            if doubled + 1 < 54 {
                lemma_pow2_strictly_increases((doubled + 1) as nat, 54);
            }
        }
        power = power * 2;
        doubled += 1;
    }
    (power - 1) * 1000
}

/// How often a message was delivered.
#[derive(Clone, Copy, Debug, PartialEq, Eq, Structural)]
pub struct Delivery {
    pub id: Address,
    pub count: usize,
}

/// What the client knows.
pub struct ClientView {
    /// Where messages for this client go.
    pub address: Address,
    /// Whether the network is up to take commands.
    pub running: bool,
    /// The ids of the text messages that were received.
    pub received: Set<Address>,
    /// The ids of the messages that wait for a timer to be delivered.
    pub pending_deliveries: Set<Address>,
    /// How often each message was scheduled to be delivered.
    pub delivered: Map<Address, nat>,
    /// The ids of the messages that were acknowledged.
    pub acknowledgements: Set<Address>,
}

impl ClientView {
    /// How often the message was scheduled to be delivered.
    pub open spec fn times_delivered(self, id: Address) -> nat {
        if self.delivered.contains_key(id) {
            self.delivered[id]
        } else {
            0
        }
    }

    /// The client after a message is scheduled for delivery, and the effects of that. A
    /// message that waits already is not scheduled again; another is, after the wait that
    /// its former deliveries call for. Either way the listeners hear of the message.
    pub open spec fn schedule_message_delivery(
        self,
        recipient: Address,
        id: Address,
        sender: Address,
        text: Seq<char>,
    ) -> (ClientView, Seq<EffectView>) {
        let sent = EffectView::SentTextMessage(id, sender, text);
        let count = self.times_delivered(id);
        if self.pending_deliveries.contains(id) {
            (self, seq![sent])
        } else if count >= usize::MAX {
            (
                ClientView { pending_deliveries: self.pending_deliveries.insert(id), ..self },
                seq![
                    EffectView::Schedule { recipient, id, sender, text, delay_ms: backoff_delay(count) },
                    sent,
                ],
            )
        } else {
            (
                ClientView {
                    pending_deliveries: self.pending_deliveries.insert(id),
                    delivered: self.delivered.insert(id, count + 1),
                    ..self
                },
                seq![
                    EffectView::Schedule { recipient, id, sender, text, delay_ms: backoff_delay(count) },
                    sent,
                ],
            )
        }
    }

    /// The effects of delivering an acknowledgement: it goes towards the recipient, if the
    /// network is up.
    pub open spec fn deliver_acknowledgement(self, recipient: Address, message_id: Address) -> Seq<
        EffectView,
    > {
        if self.running {
            seq![
                EffectView::SendPacket(
                    recipient,
                    recipient,
                    MessageView::MessageAcknowledgement(message_id),
                ),
            ]
        } else {
            Seq::empty()
        }
    }

    /// The client after a message came in from `sender`, and the effects of that.
    ///
    /// A text message for us that is new is announced and acknowledged to its author. A text
    /// message for another is relayed; but where it is known to have arrived, the
    /// acknowledgement goes back to where the message came from instead. An acknowledgement
    /// stops the delivery of its message; where it is new, it is announced if it is for us,
    /// and relayed if it is for another.
    pub open spec fn handle_message(self, sender: Address, recipient: Address, message: MessageView) -> (
        ClientView,
        Seq<EffectView>,
    ) {
        match message {
            MessageView::TextMessage(id, author, text) => {
                if recipient == self.address {
                    if self.received.contains(id) {
                        (self, Seq::empty())
                    } else {
                        (
                            ClientView { received: self.received.insert(id), ..self },
                            seq![EffectView::ReceivedTextMessage(id, author, text)]
                                + self.deliver_acknowledgement(author, id),
                        )
                    }
                } else if self.acknowledgements.contains(id) {
                    (self, self.deliver_acknowledgement(sender, id))
                } else {
                    self.schedule_message_delivery(recipient, id, author, text)
                }
            },
            MessageView::MessageAcknowledgement(message_id) => {
                let cleared = if self.pending_deliveries.contains(message_id) {
                    seq![EffectView::ClearTimeout(message_id)]
                } else {
                    Seq::empty()
                };
                let after = ClientView {
                    pending_deliveries: self.pending_deliveries.remove(message_id),
                    acknowledgements: self.acknowledgements.insert(message_id),
                    ..self
                };
                if self.acknowledgements.contains(message_id) {
                    (after, cleared)
                } else if recipient == self.address {
                    (after, cleared + seq![EffectView::ReceivedMessageAcknowledgement(message_id)])
                } else {
                    (after, cleared + self.deliver_acknowledgement(recipient, message_id))
                }
            },
        }
    }

    /// The client after the timer of a message fired, and the effects of that: the message
    /// goes towards its recipient, and is scheduled to be delivered again.
    pub open spec fn deliver_message(self, recipient: Address, id: Address, sender: Address, text: Seq<char>) -> (
        ClientView,
        Seq<EffectView>,
    ) {
        let waiting = ClientView { pending_deliveries: self.pending_deliveries.remove(id), ..self };
        let (after, scheduled) = waiting.schedule_message_delivery(recipient, id, sender, text);
        (
            after,
            seq![EffectView::SendPacket(recipient, recipient, MessageView::TextMessage(id, sender, text))]
                + scheduled,
        )
    }
}

/// Whether the list holds the address.
fn holds(list: &Vec<Address>, address: &Address) -> (held: bool)
    ensures
        held == list@.to_set().contains(*address),
{
    let mut i: usize = 0;
    while i < list.len()
        invariant
            i <= list.len(),
            forall|j: int| 0 <= j < i ==> list@[j] != *address,
        decreases list.len() - i,
    {
        if list[i] == *address {
            assert(list@.contains(*address));
            return true;
        }
        i += 1;
    }
    assert(!list@.contains(*address));
    false
}

/// Adds the address to the list, unless the list holds it.
fn put(list: &mut Vec<Address>, address: Address)
    ensures
        final(list)@.to_set() == old(list)@.to_set().insert(address),
{
    if !holds(list, &address) {
        list.push(address);
        proof {
            old(list)@.lemma_push_to_set_commute(address);
        }
    } else {
        assert(old(list)@.to_set().insert(address) =~= old(list)@.to_set());
    }
}

/// Takes the address out of the list, wherever the list holds it.
fn take_out(list: &mut Vec<Address>, address: &Address)
    ensures
        final(list)@.to_set() == old(list)@.to_set().remove(*address),
{
    let mut kept: Vec<Address> = Vec::new();
    let mut i: usize = 0;
    assert(kept@.to_set() =~= old(list)@.take(0).to_set().remove(*address));
    while i < list.len()
        invariant
            i <= list.len(),
            *list == *old(list),
            kept@.to_set() == list@.take(i as int).to_set().remove(*address),
        decreases list.len() - i,
    {
        let ghost seen = list@.take(i as int);
        let ghost before = kept@;
        proof {
            assert(list@.take(i + 1) =~= seen.push(list@[i as int]));
            seen.lemma_push_to_set_commute(list@[i as int]);
        }
        if list[i] != *address {
            kept.push(list[i]);
            proof {
                before.lemma_push_to_set_commute(list@[i as int]);
                assert(kept@.to_set() =~= list@.take(i + 1).to_set().remove(*address));
            }
        } else {
            assert(kept@.to_set() =~= list@.take(i + 1).to_set().remove(*address));
        }
        i += 1;
    }
    assert(list@.take(i as int) =~= list@);
    *list = kept;
}

/// How often each message of the list was delivered.
pub open spec fn delivery_counts(list: Seq<Delivery>) -> Map<Address, nat>
    decreases list.len(),
{
    if list.len() == 0 {
        Map::empty()
    } else {
        delivery_counts(list.drop_last()).insert(list.last().id, list.last().count as nat)
    }
}

/// Whether no message is in the list twice.
pub open spec fn distinct_ids(list: Seq<Delivery>) -> bool {
    forall|i: int, j: int| 0 <= i < j < list.len() ==> (#[trigger] list[i]).id != (#[trigger] list[j]).id
}

/// The counts of a list without doubles are the counts that the list holds.
proof fn lemma_delivery_counts(list: Seq<Delivery>)
    requires
        distinct_ids(list),
    ensures
        forall|i: int|
            0 <= i < list.len() ==> delivery_counts(list).contains_key((#[trigger] list[i]).id)
                && delivery_counts(list)[list[i].id] == list[i].count,
        forall|id: Address|
            delivery_counts(list).contains_key(id) ==> exists|i: int|
                0 <= i < list.len() && (#[trigger] list[i]).id == id,
    decreases list.len(),
{
    if list.len() > 0 {
        let front = list.drop_last();
        assert forall|i: int, j: int| 0 <= i < j < front.len() implies (#[trigger] front[i]).id != (
        #[trigger] front[j]).id by {
            assert(list[i].id != list[j].id);
        }
        lemma_delivery_counts(front);
        assert forall|i: int| 0 <= i < list.len() implies delivery_counts(list).contains_key(
            (#[trigger] list[i]).id,
        ) && delivery_counts(list)[list[i].id] == list[i].count by {
            if i < list.len() - 1 {
                assert(front[i] == list[i]);
                assert(list[i].id != list[list.len() - 1].id);
            }
        }
        assert forall|id: Address| delivery_counts(list).contains_key(id) implies exists|i: int|
            0 <= i < list.len() && (#[trigger] list[i]).id == id by {
            if id == list.last().id {
                assert(list[list.len() - 1].id == id);
            } else {
                assert(delivery_counts(front).contains_key(id));
                let i = choose|i: int| 0 <= i < front.len() && (#[trigger] front[i]).id == id;
                assert(list[i].id == id);
            }
        }
    }
}

/// The messaging client of a participant.
pub struct Client {
    address: Address,
    running: bool,
    // The sets and the map below are keyed by addresses. They are lists, searched from the
    // front, since a hash set or map of a type with a derived `Hash` is nothing that the
    // proofs could look into.
    received: Vec<Address>,
    pending_deliveries: Vec<Address>,
    delivered: Vec<Delivery>,
    acknowledgements: Vec<Address>,
}

impl View for Client {
    type V = ClientView;

    closed spec fn view(&self) -> ClientView {
        ClientView {
            address: self.address,
            running: self.running,
            received: self.received@.to_set(),
            pending_deliveries: self.pending_deliveries@.to_set(),
            delivered: delivery_counts(self.delivered@),
            acknowledgements: self.acknowledgements@.to_set(),
        }
    }
}

impl Client {
    /// Whether the client is in order: it counts the deliveries of no message twice.
    pub closed spec fn wf(&self) -> bool {
        distinct_ids(self.delivered@)
    }

    /// A client for the participant at `address`, where others send what is meant for it. Its
    /// network is not up yet.
    pub fn new(address: Address) -> (client: Client)
        ensures
            client.wf(),
            client@ == (ClientView {
                address,
                running: false,
                received: Set::empty(),
                pending_deliveries: Set::empty(),
                delivered: Map::empty(),
                acknowledgements: Set::empty(),
            }),
    {
        let client = Client {
            address,
            running: false,
            received: Vec::new(),
            pending_deliveries: Vec::new(),
            delivered: Vec::new(),
            acknowledgements: Vec::new(),
        };
        assert(client@.received =~= Set::empty());
        assert(client@.pending_deliveries =~= Set::empty());
        assert(client@.acknowledgements =~= Set::empty());
        client
    }

    /// Where messages for this client go.
    pub fn address(&self) -> (address: Address)
        ensures
            address == self@.address,
    {
        self.address
    }

    /// Whether the network is up to take commands.
    pub fn is_running(&self) -> (running: bool)
        ensures
            running == self@.running,
    {
        self.running
    }

    /// Notes that the network is up to take commands.
    pub fn run(&mut self)
        ensures
            final(self).wf() == old(self).wf(),
            final(self)@ == (ClientView { running: true, ..old(self)@ }),
    {
        self.running = true;
    }

    /// How often the message was scheduled to be delivered, and notes one time more.
    fn count_delivery(&mut self, id: Address) -> (count: usize)
        requires
            old(self).wf(),
        ensures
            final(self).wf(),
            count == old(self)@.times_delivered(id),
            final(self)@ == (ClientView {
                delivered: if count < usize::MAX {
                    old(self)@.delivered.insert(id, (count + 1) as nat)
                } else {
                    old(self)@.delivered
                },
                ..old(self)@
            }),
    {
        proof {
            lemma_delivery_counts(self.delivered@);
        }
        let mut i: usize = 0;
        while i < self.delivered.len()
            invariant
                i <= self.delivered.len(),
                *self == *old(self),
                distinct_ids(self.delivered@),
                forall|j: int| 0 <= j < i ==> (#[trigger] self.delivered@[j]).id != id,
            decreases self.delivered.len() - i,
        {
            if self.delivered[i].id == id {
                let count = self.delivered[i].count;
                let ghost before = self.delivered@;
                proof {
                    lemma_delivery_counts(before);
                }
                if count < usize::MAX {
                    self.delivered[i].count = count + 1;
                    proof {
                        let after = self.delivered@;
                        assert forall|a: int, b: int| 0 <= a < b < after.len() implies (
                        #[trigger] after[a]).id != (#[trigger] after[b]).id by {
                            assert(before[a].id != before[b].id);
                        }
                        lemma_delivery_counts(after);
                        assert(delivery_counts(after) =~= delivery_counts(before).insert(
                            id,
                            (count + 1) as nat,
                        )) by {
                            assert forall|other: Address|
                                delivery_counts(after).contains_key(other)
                                    <==> delivery_counts(before).insert(
                                    id,
                                    (count + 1) as nat,
                                ).contains_key(other) by {
                                if delivery_counts(after).contains_key(other) {
                                    let at = choose|at: int|
                                        0 <= at < after.len() && (#[trigger] after[at]).id == other;
                                    assert(before[at].id == other);
                                }
                                if delivery_counts(before).contains_key(other) {
                                    let at = choose|at: int|
                                        0 <= at < before.len() && (#[trigger] before[at]).id == other;
                                    assert(after[at].id == other);
                                }
                                if other == id {
                                    assert(after[i as int].id == id);
                                }
                            }
                            assert forall|other: Address|
                                delivery_counts(after).contains_key(
                                    other,
                                ) implies #[trigger] delivery_counts(after)[other]
                                == delivery_counts(before).insert(id, (count + 1) as nat)[other] by {
                                let at = choose|at: int|
                                    0 <= at < after.len() && (#[trigger] after[at]).id == other;
                                assert(before[at].id == other);
                                if at != i {
                                    assert(after[at] == before[at]);
                                }
                            }
                        }
                    }
                }
                return count;
            }
            i += 1;
        }
        proof {
            if delivery_counts(self.delivered@).contains_key(id) {
                let at = choose|at: int|
                    0 <= at < self.delivered@.len() && (#[trigger] self.delivered@[at]).id == id;
                assert(self.delivered@[at].id != id);
            }
            assert(self.delivered@.push(Delivery { id, count: 1 }).drop_last() =~= self.delivered@);
        }
        self.delivered.push(Delivery { id, count: 1 });
        0
    }

    /// Schedules a message to be delivered to `recipient`, unless it waits to be delivered
    /// already, and lets the listeners know of the message.
    pub fn schedule_message_delivery(&mut self, recipient: Address, text_message: TextMessage, effects: &mut Vec<Effect>)
        requires
            old(self).wf(),
        ensures
            final(self).wf(),
            final(effects)@.len() >= old(effects)@.len(),
            final(effects)@.take(old(effects)@.len() as int) == old(effects)@,
            (final(self)@, effect_views(final(effects)@.skip(old(effects)@.len() as int)))
                == old(self)@.schedule_message_delivery(
                recipient,
                text_message.id,
                text_message.sender,
                text_message.text@,
            ),
    {
        let ghost posted = effects@;
        let message_id = text_message.id;
        if !holds(&self.pending_deliveries, &message_id) {
            let delivered = self.count_delivery(message_id);
            let delay_ms = delay_for(delivered);
            effects.push(
                Effect::Schedule {
                    task: ScheduledTask::DeliverMessage(recipient, text_message.duplicate()),
                    delay_ms,
                },
            );
            put(&mut self.pending_deliveries, message_id);
        }
        effects.push(Effect::Broadcast(Event::SentTextMessage(text_message)));
        proof {
            let added = effects@.skip(posted.len() as int);
            assert(effects@.take(posted.len() as int) =~= posted);
            let expected = old(self)@.schedule_message_delivery(
                recipient,
                text_message.id,
                text_message.sender,
                text_message.text@,
            ).1;
            assert(effect_views(added) =~= expected);
        }
    }

    /// Delivers an acknowledgement: has the network send it towards `recipient`, if the
    /// network is up.
    pub fn deliver_acknowledgement(&self, recipient: Address, acknowledgement: MessageAcknowledgement, effects: &mut Vec<Effect>)
        ensures
            final(effects)@.len() >= old(effects)@.len(),
            final(effects)@.take(old(effects)@.len() as int) == old(effects)@,
            effect_views(final(effects)@.skip(old(effects)@.len() as int))
                == self@.deliver_acknowledgement(recipient, acknowledgement.message_id),
    {
        let ghost posted = effects@;
        if self.running {
            effects.push(Effect::SendPacket(recipient, acknowledgement.envelope(recipient)));
        }
        proof {
            assert(effects@.take(posted.len() as int) =~= posted);
            assert(effect_views(effects@.skip(posted.len() as int))
                =~= self@.deliver_acknowledgement(recipient, acknowledgement.message_id));
        }
    }

    /// Delivers a message when its timer has fired: has the network send it towards
    /// `recipient` and schedules the next delivery.
    pub fn deliver_message(&mut self, recipient: Address, text_message: TextMessage, effects: &mut Vec<Effect>)
        requires
            old(self).wf(),
            old(self)@.running,
        ensures
            final(self).wf(),
            final(effects)@.len() >= old(effects)@.len(),
            final(effects)@.take(old(effects)@.len() as int) == old(effects)@,
            (final(self)@, effect_views(final(effects)@.skip(old(effects)@.len() as int)))
                == old(self)@.deliver_message(
                recipient,
                text_message.id,
                text_message.sender,
                text_message.text@,
            ),
    {
        let ghost posted = effects@;
        effects.push(Effect::SendPacket(recipient, text_message.duplicate().envelope(recipient)));
        let ghost sent = effects@;
        take_out(&mut self.pending_deliveries, &text_message.id);
        self.schedule_message_delivery(recipient, text_message, effects);
        proof {
            let added = effects@.skip(posted.len() as int);
            assert(effects@.take(posted.len() as int) =~= sent.take(posted.len() as int));
            assert(effect_views(added) =~= seq![sent[posted.len() as int]@] + effect_views(
                effects@.skip(sent.len() as int),
            ));
        }
    }

    /// Takes in a message that the network received from `sender`.
    pub fn handle_message(&mut self, sender: Address, envelope: Envelope, effects: &mut Vec<Effect>)
        requires
            old(self).wf(),
        ensures
            final(self).wf(),
            final(effects)@.len() >= old(effects)@.len(),
            final(effects)@.take(old(effects)@.len() as int) == old(effects)@,
            (final(self)@, effect_views(final(effects)@.skip(old(effects)@.len() as int)))
                == old(self)@.handle_message(sender, envelope.recipient, envelope.message@),
    {
        let ghost posted = effects@;
        let ghost expected = old(self)@.handle_message(sender, envelope.recipient, envelope.message@).1;
        let recipient = envelope.recipient;
        proof {
            assert(effects@.take(posted.len() as int) =~= posted);
        }
        match envelope.message {
            Message::TextMessage(text_message) => {
                if recipient == self.address {
                    if !holds(&self.received, &text_message.id) {
                        put(&mut self.received, text_message.id);
                        let acknowledgement = MessageAcknowledgement::new(text_message.id);
                        let author = text_message.sender;
                        effects.push(Effect::Broadcast(Event::ReceivedTextMessage(text_message)));
                        let ghost told = effects@;
                        self.deliver_acknowledgement(author, acknowledgement, effects);
                        proof {
                            let added = effects@.skip(posted.len() as int);
                            assert(effects@.take(posted.len() as int) =~= told.take(
                                posted.len() as int,
                            ));
                            assert(effect_views(added) =~= seq![told[posted.len() as int]@]
                                + effect_views(effects@.skip(told.len() as int)));
                        }
                    } else {
                        assert(effect_views(effects@.skip(posted.len() as int)) =~= expected);
                    }
                } else if holds(&self.acknowledgements, &text_message.id) {
                    let acknowledgement = MessageAcknowledgement::new(text_message.id);
                    self.deliver_acknowledgement(sender, acknowledgement, effects);
                } else {
                    self.schedule_message_delivery(recipient, text_message, effects);
                }
            },
            Message::MessageAcknowledgement(acknowledgement) => {
                let message_id = acknowledgement.message_id;
                if holds(&self.pending_deliveries, &message_id) {
                    take_out(&mut self.pending_deliveries, &message_id);
                    effects.push(Effect::ClearTimeout(message_id));
                } else {
                    assert(self.pending_deliveries@.to_set().remove(message_id)
                        =~= self.pending_deliveries@.to_set());
                }
                let ghost cleared = effects@;
                let known = holds(&self.acknowledgements, &message_id);
                put(&mut self.acknowledgements, message_id);
                if !known {
                    if recipient == self.address {
                        effects.push(
                            Effect::Broadcast(Event::ReceivedMessageAcknowledgement(acknowledgement)),
                        );
                    } else {
                        self.deliver_acknowledgement(recipient, acknowledgement, effects);
                    }
                }
                proof {
                    let added = effects@.skip(posted.len() as int);
                    assert(effects@.take(posted.len() as int) =~= cleared.take(posted.len() as int));
                    assert(effect_views(added) =~= effect_views(cleared.skip(posted.len() as int))
                        + effect_views(effects@.skip(cleared.len() as int)));
                    assert(effect_views(added) =~= expected);
                }
            },
        }
    }

    /// Takes in a packet that the network received from `sender`, as the record that came
    /// over the wire. A record that is no envelope is dropped, and the reason returned.
    pub fn handle_packet(&mut self, sender: Address, record: &crate::client::messages::protobufs::Envelope, effects: &mut Vec<Effect>) -> (outcome:
        Result<(), HexError>)
        requires
            old(self).wf(),
        ensures
            final(self).wf(),
            final(effects)@.len() >= old(effects)@.len(),
            final(effects)@.take(old(effects)@.len() as int) == old(effects)@,
            match decoded(*record) {
                Ok((recipient, message)) => outcome is Ok && (
                    final(self)@,
                    effect_views(final(effects)@.skip(old(effects)@.len() as int)),
                ) == old(self)@.handle_message(sender, recipient, message),
                Err(error) => outcome == Err::<(), HexError>(error) && final(self)@ == old(self)@
                    && final(effects)@ == old(effects)@,
            },
    {
        proof {
            assert(effects@.take(effects@.len() as int) =~= effects@);
        }
        match decode(record) {
            Ok(envelope) => {
                self.handle_message(sender, envelope, effects);
                Ok(())
            },
            Err(error) => Err(error),
        }
    }

    /// Takes in the word that the network has shut down: no more tasks are to be taken, and
    /// the listeners are to know.
    pub fn handle_network_shutdown(&self, effects: &mut Vec<Effect>)
        ensures
            final(effects)@ == old(effects)@.push(Effect::Shutdown).push(
                Effect::Broadcast(Event::Shutdown),
            ),
    {
        effects.push(Effect::Shutdown);
        effects.push(Effect::Broadcast(Event::Shutdown));
    }

    /// Shuts down: has the network shut down, if it is up. The client itself shuts down when
    /// the network has.
    pub fn shutdown(&self, effects: &mut Vec<Effect>)
        ensures
            final(effects)@ == if self@.running {
                old(effects)@.push(Effect::ShutdownNetwork)
            } else {
                old(effects)@
            },
    {
        if self.running {
            effects.push(Effect::ShutdownNetwork);
        }
    }

    /// Does what is due when the timer of a task fires.
    pub fn timeout(&mut self, task: ScheduledTask, effects: &mut Vec<Effect>)
        requires
            old(self).wf(),
            old(self)@.running,
        ensures
            final(self).wf(),
            final(effects)@.len() >= old(effects)@.len(),
            final(effects)@.take(old(effects)@.len() as int) == old(effects)@,
            task matches ScheduledTask::DeliverMessage(recipient, message) && (
                final(self)@,
                effect_views(final(effects)@.skip(old(effects)@.len() as int)),
            ) == old(self)@.deliver_message(recipient, message.id, message.sender, message.text@),
    {
        match task {
            ScheduledTask::DeliverMessage(recipient, message) => self.deliver_message(
                recipient,
                message,
                effects,
            ),
        }
    }
}

} // verus!
