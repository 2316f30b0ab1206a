//! The messages of the messaging client.

pub mod protobufs;

use crate::address::{sha1_digest, Address};
use crate::hex::HexError;
use crate::numeric::be_value;
use vstd::prelude::*;
use vstd::string::StringExecFns;

verus! {

/// A text from one participant to another.
#[derive(Debug, Clone)]
pub struct TextMessage {
    /// What the message is known by: the address of its sender and its text together.
    pub id: Address,
    pub sender: Address,
    pub text: String,
}

impl TextMessage {
    /// A message from `sender`. Its id is the address for the sender's address, written in
    /// hexadecimal, followed by the text.
    pub fn new(sender: Address, text: String) -> (message: TextMessage)
        ensures
            message.id@ == be_value(sha1_digest(sender.text() + text@)),
            message.sender == sender,
            message.text == text,
    {
        let mut content = sender.to_str();
        content.append(text.as_str());
        let id = Address::for_content(content.as_str());
        TextMessage { id, sender, text }
    }

    /// The message in an envelope for `recipient`.
    pub fn envelope(self, recipient: Address) -> (envelope: Envelope)
        ensures
            envelope.recipient == recipient,
            envelope.message == Message::TextMessage(self),
    {
        Envelope { recipient, message: Message::TextMessage(self) }
    }

    /// A copy of the message.
    pub fn duplicate(&self) -> (copy: TextMessage)
        ensures
            copy.id == self.id,
            copy.sender == self.sender,
            copy.text@ == self.text@,
    {
        TextMessage { id: self.id, sender: self.sender, text: self.text.clone() }
    }
}

/// The word that a text message has arrived.
#[derive(Debug, Clone, Copy, PartialEq, Eq, Structural)]
pub struct MessageAcknowledgement {
    /// The id of the message that has arrived.
    pub message_id: Address,
}

impl MessageAcknowledgement {
    pub fn new(message_id: Address) -> (acknowledgement: MessageAcknowledgement)
        ensures
            acknowledgement.message_id == message_id,
    {
        MessageAcknowledgement { message_id }
    }

    /// The acknowledgement in an envelope for `recipient`.
    pub fn envelope(self, recipient: Address) -> (envelope: Envelope)
        ensures
            envelope.recipient == recipient,
            envelope.message == Message::MessageAcknowledgement(self),
    {
        Envelope { recipient, message: Message::MessageAcknowledgement(self) }
    }
}

/// What an envelope of the client carries.
#[derive(Debug, Clone)]
pub enum Message {
    TextMessage(TextMessage),
    MessageAcknowledgement(MessageAcknowledgement),
}

/// A message of the client on its way to a recipient.
#[derive(Debug, Clone)]
pub struct Envelope {
    pub recipient: Address,
    pub message: Message,
}

/// The address that a field spells; the null address where the field is absent.
pub open spec fn field_address(field: Option<Seq<char>>) -> Result<Address, HexError> {
    Address::parsed(protobufs::field_or_empty(field))
}

impl Envelope {
    /// Whether `record` is this envelope laid out for the wire: it names the kind of the
    /// message, and holds the recipient and the parts of the message, each address in
    /// hexadecimal.
    pub open spec fn encoded_as(self, record: protobufs::Envelope) -> bool {
        &&& record.recipient is Some
        &&& record.recipient->0@ == self.recipient.text()
        &&& match self.message {
            Message::TextMessage(message) => {
                &&& record.message_type == Some(protobufs::Envelope_Type::TEXT_MESSAGE)
                &&& record.message_acknowledgement is None
                &&& record.text_message is Some
                &&& record.text_message->0@ == (protobufs::TextMessageView {
                    id: Some(message.id.text()),
                    sender: Some(message.sender.text()),
                    text: Some(message.text@),
                })
            },
            Message::MessageAcknowledgement(acknowledgement) => {
                &&& record.message_type == Some(protobufs::Envelope_Type::MESSAGE_ACKNOWLEDGEMENT)
                &&& record.text_message is None
                &&& record.message_acknowledgement is Some
                &&& record.message_acknowledgement->0@ == (protobufs::MessageAcknowledgementView {
                    message_id: Some(acknowledgement.message_id.text()),
                })
            },
        }
    }

    /// Lays the envelope out for the wire.
    pub fn encode(self) -> (record: protobufs::Envelope)
        ensures
            self.encoded_as(record),
    {
        let mut record = protobufs::Envelope::new();
        record.recipient = Some(self.recipient.to_str());
        match self.message {
            Message::TextMessage(text_message) => {
                let mut encoded = protobufs::TextMessage::new();
                encoded.set_id(text_message.id.to_str());
                encoded.set_sender(text_message.sender.to_str());
                encoded.set_text(text_message.text);
                record.message_type = Some(protobufs::Envelope_Type::TEXT_MESSAGE);
                record.text_message = Some(encoded);
            },
            Message::MessageAcknowledgement(message_acknowledgement) => {
                let mut encoded = protobufs::MessageAcknowledgement::new();
                encoded.set_message_id(message_acknowledgement.message_id.to_str());
                record.message_type = Some(protobufs::Envelope_Type::MESSAGE_ACKNOWLEDGEMENT);
                record.message_acknowledgement = Some(encoded);
            },
        }
        record
    }
}

/// What a record says when it is read as an envelope, or why it says nothing: the first of its
/// recipient, its id and its sender that is not hexadecimal. A part that is absent reads as
/// empty.
pub open spec fn decoded(record: protobufs::Envelope) -> Result<(Address, MessageView), HexError> {
    match field_address(protobufs::field_view(record.recipient)) {
        Err(error) => Err(error),
        Ok(recipient) => match record.message_type {
            Some(protobufs::Envelope_Type::MESSAGE_ACKNOWLEDGEMENT) => {
                let message_id = match record.message_acknowledgement {
                    Some(acknowledgement) => acknowledgement@.message_id,
                    None => None,
                };
                match field_address(message_id) {
                    Err(error) => Err(error),
                    Ok(message_id) => Ok((recipient, MessageView::MessageAcknowledgement(message_id))),
                }
            },
            _ => {
                let message = match record.text_message {
                    Some(message) => message@,
                    None => protobufs::TextMessageView { id: None, sender: None, text: None },
                };
                match field_address(message.id) {
                    Err(error) => Err(error),
                    Ok(id) => match field_address(message.sender) {
                        Err(error) => Err(error),
                        Ok(sender) => Ok(
                            (
                                recipient,
                                MessageView::TextMessage(
                                    id,
                                    sender,
                                    protobufs::field_or_empty(message.text),
                                ),
                            ),
                        ),
                    },
                }
            },
        },
    }
}

/// What a message of the client says.
pub enum MessageView {
    /// A text message: its id, its sender and its text.
    TextMessage(Address, Address, Seq<char>),
    /// The acknowledgement of the message with the id.
    MessageAcknowledgement(Address),
}

impl View for Message {
    type V = MessageView;

    open spec fn view(&self) -> MessageView {
        match *self {
            Message::TextMessage(message) => MessageView::TextMessage(
                message.id,
                message.sender,
                message.text@,
            ),
            Message::MessageAcknowledgement(acknowledgement) => MessageView::MessageAcknowledgement(
                acknowledgement.message_id,
            ),
        }
    }
}

/// What an envelope read from a record says, or why none was read.
pub open spec fn outcome_view(outcome: Result<Envelope, HexError>) -> Result<
    (Address, MessageView),
    HexError,
> {
    match outcome {
        Ok(envelope) => Ok((envelope.recipient, envelope.message@)),
        Err(error) => Err(error),
    }
}

/// Reads an envelope from the record that came over the wire.
pub fn decode(record: &protobufs::Envelope) -> (outcome: Result<Envelope, HexError>)
    ensures
        outcome_view(outcome) == decoded(*record),
{
    let recipient = match Address::from_str(record.get_recipient()) {
        Ok(recipient) => recipient,
        Err(error) => {
            return Err(error);
        },
    };
    match record.get_message_type() {
        protobufs::Envelope_Type::TEXT_MESSAGE => {
            let (id, sender, text) = match &record.text_message {
                Some(message) => (message.get_id(), message.get_sender(), message.get_text()),
                None => (
                    protobufs::empty_text(),
                    protobufs::empty_text(),
                    protobufs::empty_text(),
                ),
            };
            let id = match Address::from_str(id) {
                Ok(id) => id,
                Err(error) => {
                    return Err(error);
                },
            };
            let sender = match Address::from_str(sender) {
                Ok(sender) => sender,
                Err(error) => {
                    return Err(error);
                },
            };
            Ok(
                Envelope {
                    recipient,
                    message: Message::TextMessage(
                        TextMessage { id, sender, text: String::from_str(text) },
                    ),
                },
            )
        },
        protobufs::Envelope_Type::MESSAGE_ACKNOWLEDGEMENT => {
            let message_id = match &record.message_acknowledgement {
                Some(acknowledgement) => acknowledgement.get_message_id(),
                None => protobufs::empty_text(),
            };
            match Address::from_str(message_id) {
                Ok(message_id) => Ok(
                    Envelope {
                        recipient,
                        message: Message::MessageAcknowledgement(
                            MessageAcknowledgement { message_id },
                        ),
                    },
                ),
                Err(error) => Err(error),
            }
        },
    }
}

} // verus!
