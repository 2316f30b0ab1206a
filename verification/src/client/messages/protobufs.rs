//! The records of the messaging client, as they are laid out on the wire.

pub use crate::client::protobufs::{empty_text, field_or_empty, field_view};
use vstd::prelude::*;

verus! {

/// What a [`TextMessage`] holds: each field is present or absent.
pub struct TextMessageView {
    pub id: Option<Seq<char>>,
    pub sender: Option<Seq<char>>,
    pub text: Option<Seq<char>>,
}

/// A text message on the wire: its id and its sender as hexadecimal addresses, and its text.
#[derive(Clone, Debug, PartialEq, Eq)]
pub struct TextMessage {
    id: Option<String>,
    sender: Option<String>,
    text: Option<String>,
}

impl View for TextMessage {
    type V = TextMessageView;

    closed spec fn view(&self) -> TextMessageView {
        TextMessageView {
            id: field_view(self.id),
            sender: field_view(self.sender),
            text: field_view(self.text),
        }
    }
}

impl TextMessage {
    /// A record with every field absent.
    pub fn new() -> (record: TextMessage)
        ensures
            record@ == (TextMessageView { id: None, sender: None, text: None }),
    {
        TextMessage { id: None, sender: None, text: None }
    }

    /// Makes the id absent.
    pub fn clear_id(&mut self)
        ensures
            final(self)@ == (TextMessageView { id: None, ..old(self)@ }),
    {
        self.id = None;
    }

    /// Whether the id is present.
    pub fn has_id(&self) -> (has: bool)
        ensures
            has == self@.id is Some,
    {
        self.id.is_some()
    }

    pub fn set_id(&mut self, v: String)
        ensures
            final(self)@ == (TextMessageView { id: Some(v@), ..old(self)@ }),
    {
        self.id = Some(v);
    }

    /// The id, to change in place. Where it is absent, it is first made present and
    /// empty.
    pub fn mut_id(&mut self) -> (field: &mut String)
        ensures
            field@ == field_or_empty(old(self)@.id),
            final(self)@ == (TextMessageView { id: Some(final(field)@), ..old(self)@ }),
    {
        if self.id.is_none() {
            self.id = Some(String::new());
        }
        self.id.as_mut().unwrap()
    }

    /// Takes the id out of the record: what it held, or the empty text where it was absent.
    pub fn take_id(&mut self) -> (value: String)
        ensures
            value@ == field_or_empty(old(self)@.id),
            final(self)@ == (TextMessageView { id: None, ..old(self)@ }),
    {
        match self.id.take() {
            Some(value) => value,
            None => String::new(),
        }
    }

    /// The id, or the empty text where it is absent.
    pub fn get_id(&self) -> (value: &str)
        ensures
            value@ == field_or_empty(self@.id),
    {
        match &self.id {
            Some(value) => value.as_str(),
            None => empty_text(),
        }
    }

    /// Makes the sender absent.
    pub fn clear_sender(&mut self)
        ensures
            final(self)@ == (TextMessageView { sender: None, ..old(self)@ }),
    {
        self.sender = None;
    }

    /// Whether the sender is present.
    pub fn has_sender(&self) -> (has: bool)
        ensures
            has == self@.sender is Some,
    {
        self.sender.is_some()
    }

    pub fn set_sender(&mut self, v: String)
        ensures
            final(self)@ == (TextMessageView { sender: Some(v@), ..old(self)@ }),
    {
        self.sender = Some(v);
    }

    /// The sender, to change in place. Where it is absent, it is first made present and
    /// empty.
    pub fn mut_sender(&mut self) -> (field: &mut String)
        ensures
            field@ == field_or_empty(old(self)@.sender),
            final(self)@ == (TextMessageView { sender: Some(final(field)@), ..old(self)@ }),
    {
        if self.sender.is_none() {
            self.sender = Some(String::new());
        }
        self.sender.as_mut().unwrap()
    }

    /// Takes the sender out of the record: what it held, or the empty text where it was absent.
    pub fn take_sender(&mut self) -> (value: String)
        ensures
            value@ == field_or_empty(old(self)@.sender),
            final(self)@ == (TextMessageView { sender: None, ..old(self)@ }),
    {
        match self.sender.take() {
            Some(value) => value,
            None => String::new(),
        }
    }

    /// The sender, or the empty text where it is absent.
    pub fn get_sender(&self) -> (value: &str)
        ensures
            value@ == field_or_empty(self@.sender),
    {
        match &self.sender {
            Some(value) => value.as_str(),
            None => empty_text(),
        }
    }

    /// Makes the text absent.
    pub fn clear_text(&mut self)
        ensures
            final(self)@ == (TextMessageView { text: None, ..old(self)@ }),
    {
        self.text = None;
    }

    /// Whether the text is present.
    pub fn has_text(&self) -> (has: bool)
        ensures
            has == self@.text is Some,
    {
        self.text.is_some()
    }

    pub fn set_text(&mut self, v: String)
        ensures
            final(self)@ == (TextMessageView { text: Some(v@), ..old(self)@ }),
    {
        self.text = Some(v);
    }

    /// The text, to change in place. Where it is absent, it is first made present and
    /// empty.
    pub fn mut_text(&mut self) -> (field: &mut String)
        ensures
            field@ == field_or_empty(old(self)@.text),
            final(self)@ == (TextMessageView { text: Some(final(field)@), ..old(self)@ }),
    {
        if self.text.is_none() {
            self.text = Some(String::new());
        }
        self.text.as_mut().unwrap()
    }

    /// Takes the text out of the record: what it held, or the empty text where it was absent.
    pub fn take_text(&mut self) -> (value: String)
        ensures
            value@ == field_or_empty(old(self)@.text),
            final(self)@ == (TextMessageView { text: None, ..old(self)@ }),
    {
        match self.text.take() {
            Some(value) => value,
            None => String::new(),
        }
    }

    /// The text, or the empty text where it is absent.
    pub fn get_text(&self) -> (value: &str)
        ensures
            value@ == field_or_empty(self@.text),
    {
        match &self.text {
            Some(value) => value.as_str(),
            None => empty_text(),
        }
    }
}

/// What a [`MessageAcknowledgement`] holds: each field is present or absent.
pub struct MessageAcknowledgementView {
    pub message_id: Option<Seq<char>>,
}

/// The acknowledgement of a text message on the wire: the id of the message, as a
/// hexadecimal address.
#[derive(Clone, Debug, PartialEq, Eq)]
pub struct MessageAcknowledgement {
    message_id: Option<String>,
}

impl View for MessageAcknowledgement {
    type V = MessageAcknowledgementView;

    closed spec fn view(&self) -> MessageAcknowledgementView {
        MessageAcknowledgementView {
            message_id: field_view(self.message_id),
        }
    }
}

impl MessageAcknowledgement {
    /// A record with every field absent.
    pub fn new() -> (record: MessageAcknowledgement)
        ensures
            record@ == (MessageAcknowledgementView { message_id: None }),
    {
        MessageAcknowledgement { message_id: None }
    }

    /// Makes the id of the message absent.
    pub fn clear_message_id(&mut self)
        ensures
            final(self)@ == (MessageAcknowledgementView { message_id: None, ..old(self)@ }),
    {
        self.message_id = None;
    }

    /// Whether the id of the message is present.
    pub fn has_message_id(&self) -> (has: bool)
        ensures
            has == self@.message_id is Some,
    {
        self.message_id.is_some()
    }

    pub fn set_message_id(&mut self, v: String)
        ensures
            final(self)@ == (MessageAcknowledgementView { message_id: Some(v@), ..old(self)@ }),
    {
        self.message_id = Some(v);
    }

    /// The id of the message, to change in place. Where it is absent, it is first made present and
    /// empty.
    pub fn mut_message_id(&mut self) -> (field: &mut String)
        ensures
            field@ == field_or_empty(old(self)@.message_id),
            final(self)@ == (MessageAcknowledgementView { message_id: Some(final(field)@), ..old(self)@ }),
    {
        if self.message_id.is_none() {
            self.message_id = Some(String::new());
        }
        self.message_id.as_mut().unwrap()
    }

    /// Takes the id of the message out of the record: what it held, or the empty text where it was absent.
    pub fn take_message_id(&mut self) -> (value: String)
        ensures
            value@ == field_or_empty(old(self)@.message_id),
            final(self)@ == (MessageAcknowledgementView { message_id: None, ..old(self)@ }),
    {
        match self.message_id.take() {
            Some(value) => value,
            None => String::new(),
        }
    }

    /// The id of the message, or the empty text where it is absent.
    pub fn get_message_id(&self) -> (value: &str)
        ensures
            value@ == field_or_empty(self@.message_id),
    {
        match &self.message_id {
            Some(value) => value.as_str(),
            None => empty_text(),
        }
    }
}

/// The kinds of message that an envelope of the client can carry.
#[allow(non_camel_case_types)]
#[derive(Clone, Copy, Debug, PartialEq, Eq, Structural)]
pub enum Envelope_Type {
    TEXT_MESSAGE,
    MESSAGE_ACKNOWLEDGEMENT,
}

/// What the client puts on the wire: one message and the address it is for.
#[derive(Clone, Debug, PartialEq, Eq)]
pub struct Envelope {
    pub message_type: Option<Envelope_Type>,
    /// The recipient, as a hexadecimal address.
    pub recipient: Option<String>,
    pub text_message: Option<TextMessage>,
    pub message_acknowledgement: Option<MessageAcknowledgement>,
}

impl Envelope {
    /// An envelope with every field absent.
    pub fn new() -> (envelope: Envelope)
        ensures
            envelope.message_type is None,
            envelope.recipient is None,
            envelope.text_message is None,
            envelope.message_acknowledgement is None,
    {
        Envelope {
            message_type: None,
            recipient: None,
            text_message: None,
            message_acknowledgement: None,
        }
    }

    /// The kind of message; a text message where none is given.
    pub fn get_message_type(&self) -> (kind: Envelope_Type)
        ensures
            kind == match self.message_type {
                Some(kind) => kind,
                None => Envelope_Type::TEXT_MESSAGE,
            },
    {
        match self.message_type {
            Some(kind) => kind,
            None => Envelope_Type::TEXT_MESSAGE,
        }
    }

    /// The recipient, or the empty text where it is absent.
    pub fn get_recipient(&self) -> (value: &str)
        ensures
            value@ == field_or_empty(field_view(self.recipient)),
    {
        match &self.recipient {
            Some(value) => value.as_str(),
            None => empty_text(),
        }
    }
}

} // verus!
