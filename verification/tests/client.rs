use comm::address::Address;
use comm::client::messages::protobufs;
use comm::client::messages::{decode, Envelope, Message, MessageAcknowledgement, TextMessage};
use comm::client::protobufs::CommMessage;
use comm::client::{delay_for, Client, Effect, Event, ScheduledTask};
use comm::hex::HexError;

fn kinds(effects: &[Effect]) -> Vec<String> {
    effects
        .iter()
        .map(|effect| match effect {
            Effect::Broadcast(Event::ReceivedTextMessage(message)) => format!("received {}", message.text),
            Effect::Broadcast(Event::SentTextMessage(message)) => format!("sent {}", message.text),
            Effect::Broadcast(Event::ReceivedMessageAcknowledgement(_)) => "acknowledged".to_string(),
            Effect::Broadcast(Event::Shutdown) => "shut down".to_string(),
            Effect::SendPacket(towards, envelope) => {
                assert_eq!(*towards, envelope.recipient);
                match &envelope.message {
                    Message::TextMessage(message) => format!("packet text {}", message.text),
                    Message::MessageAcknowledgement(_) => "packet acknowledgement".to_string(),
                }
            }
            Effect::Schedule { task: ScheduledTask::DeliverMessage(_, message), delay_ms } => {
                format!("schedule {} {}", message.text, delay_ms)
            }
            Effect::ClearTimeout(_) => "clear".to_string(),
            Effect::ShutdownNetwork => "shut down network".to_string(),
            Effect::Shutdown => "stop".to_string(),
        })
        .collect()
}

fn us() -> Address {
    Address::for_content("us")
}

fn them() -> Address {
    Address::for_content("them")
}

fn running_client() -> Client {
    let mut client = Client::new(us());
    client.run();
    client
}

#[test]
fn test_text_message_id_is_the_address_for_sender_and_text() {
    let sender = Address::for_content("sender");
    let message = TextMessage::new(sender, "hello".to_string());
    assert_eq!(message.id, Address::for_content(&format!("{}{}", sender.to_str(), "hello")));
    assert_eq!(message.sender, sender);
    assert_eq!(message.text, "hello");
    let copy = message.duplicate();
    assert_eq!((copy.id, copy.sender, copy.text.as_str()), (message.id, sender, "hello"));
    assert_eq!(MessageAcknowledgement::new(message.id).message_id, message.id);
}

#[test]
fn test_envelope_encode_and_decode() {
    let message = TextMessage::new(us(), "hi".to_string());
    let id = message.id;
    let record = message.envelope(them()).encode();
    assert_eq!(record.get_message_type(), protobufs::Envelope_Type::TEXT_MESSAGE);
    assert_eq!(record.get_recipient(), them().to_str());
    assert_eq!(record.text_message.as_ref().unwrap().get_id(), id.to_str());
    assert_eq!(record.text_message.as_ref().unwrap().get_sender(), us().to_str());
    assert_eq!(record.text_message.as_ref().unwrap().get_text(), "hi");
    assert_eq!(record.message_acknowledgement, None);
    let envelope = decode(&record).unwrap();
    assert_eq!(envelope.recipient, them());
    match envelope.message {
        Message::TextMessage(read) => assert_eq!((read.id, read.sender, read.text.as_str()), (id, us(), "hi")),
        _ => panic!("not a text message"),
    }

    let record = MessageAcknowledgement::new(id).envelope(us()).encode();
    assert_eq!(record.get_message_type(), protobufs::Envelope_Type::MESSAGE_ACKNOWLEDGEMENT);
    assert_eq!(record.message_acknowledgement.as_ref().unwrap().get_message_id(), id.to_str());
    assert_eq!(record.text_message, None);
    let envelope = decode(&record).unwrap();
    assert_eq!(envelope.recipient, us());
    assert!(matches!(envelope.message, Message::MessageAcknowledgement(read) if read.message_id == id));
}

#[test]
fn test_decode_reads_what_is_absent_as_empty_and_rejects_what_is_not_hexadecimal() {
    let envelope = decode(&protobufs::Envelope::new()).unwrap();
    assert_eq!(envelope.recipient, Address::null());
    match envelope.message {
        Message::TextMessage(read) => {
            assert_eq!((read.id, read.sender, read.text.as_str()), (Address::null(), Address::null(), ""))
        }
        _ => panic!("not a text message"),
    }
    let mut record = protobufs::Envelope::new();
    record.recipient = Some("xx".to_string());
    assert_eq!(decode(&record).err(), Some(HexError::InvalidCharacter('x', 0)));
    let mut record = protobufs::Envelope::new();
    record.message_type = Some(protobufs::Envelope_Type::MESSAGE_ACKNOWLEDGEMENT);
    let mut acknowledgement = protobufs::MessageAcknowledgement::new();
    acknowledgement.set_message_id("abc".to_string());
    record.message_acknowledgement = Some(acknowledgement);
    assert_eq!(decode(&record).err(), Some(HexError::InvalidLength));
}

#[test]
fn test_record_accessors() {
    let mut record = protobufs::TextMessage::new();
    assert!(!record.has_id() && !record.has_sender() && !record.has_text());
    assert_eq!((record.get_id(), record.get_sender(), record.get_text()), ("", "", ""));
    record.set_id("id".to_string());
    record.set_sender("sender".to_string());
    record.set_text("text".to_string());
    assert!(record.has_id() && record.has_sender() && record.has_text());
    assert_eq!((record.get_id(), record.get_sender(), record.get_text()), ("id", "sender", "text"));
    record.mut_text().push_str(" and more");
    assert_eq!(record.get_text(), "text and more");
    assert_eq!(record.take_text(), "text and more");
    assert!(!record.has_text());
    assert_eq!(record.take_text(), "");
    record.mut_sender().push('!');
    assert_eq!(record.take_sender(), "sender!");
    record.mut_sender().push('?');
    assert_eq!(record.get_sender(), "?");
    assert!(record.has_sender());
    record.clear_sender();
    record.clear_id();
    record.clear_text();
    assert_eq!(record, protobufs::TextMessage::new());
    assert_eq!(record.take_id(), "");
    assert_eq!(record.mut_id(), "");
    assert!(record.has_id());

    let mut record = protobufs::MessageAcknowledgement::new();
    assert!(!record.has_message_id());
    assert_eq!(record.get_message_id(), "");
    record.mut_message_id().push_str("ab");
    assert_eq!(record.get_message_id(), "ab");
    record.set_message_id("cd".to_string());
    assert_eq!(record.take_message_id(), "cd");
    assert_eq!(record.take_message_id(), "");
    record.set_message_id("ef".to_string());
    record.clear_message_id();
    assert!(!record.has_message_id());
}

#[test]
fn test_comm_message_accessors() {
    let mut record = CommMessage::new();
    assert!(!record.has_recipient() && !record.has_sender() && !record.has_text());
    assert_eq!((record.get_recipient(), record.get_sender(), record.get_text()), ("", "", ""));
    record.set_recipient("r".to_string());
    record.set_sender("s".to_string());
    record.set_text("t".to_string());
    assert_eq!((record.get_recipient(), record.get_sender(), record.get_text()), ("r", "s", "t"));
    record.mut_recipient().push('1');
    record.mut_sender().push('2');
    record.mut_text().push('3');
    assert_eq!(record.take_recipient(), "r1");
    assert_eq!(record.take_sender(), "s2");
    assert_eq!(record.take_text(), "t3");
    assert_eq!(record, CommMessage::new());
    assert_eq!(record.mut_recipient(), "");
    assert!(record.has_recipient());
    record.set_sender("s".to_string());
    record.set_text("t".to_string());
    record.clear_recipient();
    record.clear_sender();
    record.clear_text();
    assert_eq!(record, CommMessage::new());
    assert_eq!((record.take_recipient(), record.take_sender(), record.take_text()), (String::new(), String::new(), String::new()));
}

#[test]
fn test_delay_doubles() {
    assert_eq!(delay_for(0), 0);
    assert_eq!(delay_for(1), 1_000);
    assert_eq!(delay_for(2), 3_000);
    assert_eq!(delay_for(3), 7_000);
    assert_eq!(delay_for(10), 1_023_000);
    assert_eq!(delay_for(54), ((1u64 << 54) - 1) * 1000);
    assert_eq!(delay_for(55), u64::MAX);
    assert_eq!(delay_for(usize::MAX), u64::MAX);
}

#[test]
fn test_message_is_delivered_again_after_longer_waits() {
    let mut client = running_client();
    assert_eq!(client.address(), us());
    let mut effects = Vec::new();
    let message = TextMessage::new(us(), "hello".to_string());
    client.schedule_message_delivery(them(), message.duplicate(), &mut effects);
    assert_eq!(kinds(&effects), vec!["schedule hello 0", "sent hello"]);
    // it waits already: it is not scheduled again
    effects.clear();
    client.schedule_message_delivery(them(), message.duplicate(), &mut effects);
    assert_eq!(kinds(&effects), vec!["sent hello"]);
    for delay in ["1000", "3000", "7000"] {
        effects.clear();
        client.timeout(ScheduledTask::DeliverMessage(them(), message.duplicate()), &mut effects);
        assert_eq!(
            kinds(&effects),
            vec!["packet text hello".to_string(), format!("schedule hello {}", delay), "sent hello".to_string()]
        );
    }
}

#[test]
fn test_acknowledgement_stops_the_delivery() {
    let mut client = running_client();
    let mut effects = Vec::new();
    let message = TextMessage::new(us(), "hello".to_string());
    client.schedule_message_delivery(them(), message.duplicate(), &mut effects);
    effects.clear();
    let acknowledgement = MessageAcknowledgement::new(message.id);
    client.handle_message(them(), acknowledgement.envelope(us()), &mut effects);
    assert_eq!(kinds(&effects), vec!["clear", "acknowledged"]);
    // a second acknowledgement is nothing new
    effects.clear();
    client.handle_message(them(), acknowledgement.envelope(us()), &mut effects);
    assert!(effects.is_empty());
    // the message can be scheduled anew
    client.schedule_message_delivery(them(), message.duplicate(), &mut effects);
    assert_eq!(kinds(&effects), vec!["schedule hello 1000", "sent hello"]);
}

#[test]
fn test_text_message_for_us_is_announced_and_acknowledged_once() {
    let mut client = running_client();
    let mut effects = Vec::new();
    let message = TextMessage::new(them(), "hi".to_string());
    let relay = Address::for_content("relay");
    client.handle_message(relay, message.duplicate().envelope(us()), &mut effects);
    assert_eq!(kinds(&effects), vec!["received hi", "packet acknowledgement"]);
    match &effects[1] {
        Effect::SendPacket(towards, envelope) => {
            assert_eq!(*towards, them());
            match &envelope.message {
                Message::MessageAcknowledgement(acknowledgement) => {
                    assert_eq!(acknowledgement.message_id, message.id)
                }
                _ => panic!("not an acknowledgement"),
            }
        }
        _ => panic!("not a packet"),
    }
    effects.clear();
    client.handle_message(relay, message.envelope(us()), &mut effects);
    assert!(effects.is_empty());
}

#[test]
fn test_messages_for_others_are_relayed() {
    let mut client = running_client();
    let mut effects = Vec::new();
    let other = Address::for_content("other");
    let relay = Address::for_content("relay");
    let message = TextMessage::new(them(), "hi".to_string());
    client.handle_message(relay, message.duplicate().envelope(other), &mut effects);
    assert_eq!(kinds(&effects), vec!["schedule hi 0", "sent hi"]);
    // the acknowledgement on its way back is relayed as well, and remembered
    effects.clear();
    client.handle_message(other, MessageAcknowledgement::new(message.id).envelope(them()), &mut effects);
    assert_eq!(kinds(&effects), vec!["clear", "packet acknowledgement"]);
    match &effects[1] {
        Effect::SendPacket(towards, _) => assert_eq!(*towards, them()),
        _ => panic!("not a packet"),
    }
    // the message comes by again: the acknowledgement goes to where it came from
    effects.clear();
    client.handle_message(relay, message.envelope(other), &mut effects);
    assert_eq!(kinds(&effects), vec!["packet acknowledgement"]);
    match &effects[0] {
        Effect::SendPacket(towards, _) => assert_eq!(*towards, relay),
        _ => panic!("not a packet"),
    }
}

#[test]
fn test_client_without_network_sends_nothing() {
    let mut client = Client::new(us());
    let mut effects = Vec::new();
    let message = TextMessage::new(them(), "hi".to_string());
    client.handle_message(them(), message.envelope(us()), &mut effects);
    assert_eq!(kinds(&effects), vec!["received hi"]);
    effects.clear();
    client.shutdown(&mut effects);
    assert!(effects.is_empty());
    client.deliver_acknowledgement(them(), MessageAcknowledgement::new(us()), &mut effects);
    assert!(effects.is_empty());
    client.run();
    client.shutdown(&mut effects);
    client.handle_network_shutdown(&mut effects);
    assert_eq!(kinds(&effects), vec!["shut down network", "stop", "shut down"]);
}

#[test]
fn test_packet_that_is_no_envelope_is_dropped() {
    let mut client = running_client();
    let mut effects = Vec::new();
    let mut record = protobufs::Envelope::new();
    record.recipient = Some("zz".to_string());
    assert_eq!(client.handle_packet(them(), &record, &mut effects), Err(HexError::InvalidCharacter('z', 0)));
    assert!(effects.is_empty());
    let record = TextMessage::new(them(), "hi".to_string()).envelope(us()).encode();
    assert_eq!(client.handle_packet(them(), &record, &mut effects), Ok(()));
    assert_eq!(kinds(&effects), vec!["received hi", "packet acknowledgement"]);
}
