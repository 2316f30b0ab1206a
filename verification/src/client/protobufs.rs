//! The record of a text message as an early client put it on the wire.

use vstd::prelude::*;

verus! {

/// What a field holds, if it is there.
pub open spec fn field_view(field: Option<String>) -> Option<Seq<char>> {
    match field {
        Some(value) => Some(value@),
        None => None,
    }
}

/// What reading a field gives: what it holds, or the empty text where it is absent.
pub open spec fn field_or_empty(field: Option<Seq<char>>) -> Seq<char> {
    match field {
        Some(value) => value,
        None => Seq::empty(),
    }
}

/// The empty text.
pub fn empty_text() -> (text: &'static str)
    ensures
        text@ == Seq::<char>::empty(),
{
    proof {
        reveal_strlit("");
    }
    assert(""@ =~= Seq::<char>::empty());
    ""
}

/// What a [`CommMessage`] holds: each field is present or absent.
pub struct CommMessageView {
    pub recipient: Option<Seq<char>>,
    pub sender: Option<Seq<char>>,
    pub text: Option<Seq<char>>,
}

/// A text message with its recipient and its sender, each as a hexadecimal address.
#[derive(Clone, Debug, PartialEq, Eq)]
pub struct CommMessage {
    recipient: Option<String>,
    sender: Option<String>,
    text: Option<String>,
}

impl View for CommMessage {
    type V = CommMessageView;

    closed spec fn view(&self) -> CommMessageView {
        CommMessageView {
            recipient: field_view(self.recipient),
            sender: field_view(self.sender),
            text: field_view(self.text),
        }
    }
}

impl CommMessage {
    /// A record with every field absent.
    pub fn new() -> (record: CommMessage)
        ensures
            record@ == (CommMessageView { recipient: None, sender: None, text: None }),
    {
        CommMessage { recipient: None, sender: None, text: None }
    }

    /// Makes the recipient absent.
    pub fn clear_recipient(&mut self)
        ensures
            final(self)@ == (CommMessageView { recipient: None, ..old(self)@ }),
    {
        self.recipient = None;
    }

    /// Whether the recipient is present.
    pub fn has_recipient(&self) -> (has: bool)
        ensures
            has == self@.recipient is Some,
    {
        self.recipient.is_some()
    }

    pub fn set_recipient(&mut self, v: String)
        ensures
            final(self)@ == (CommMessageView { recipient: Some(v@), ..old(self)@ }),
    {
        self.recipient = Some(v);
    }

    /// The recipient, to change in place. Where it is absent, it is first made present and
    /// empty.
    pub fn mut_recipient(&mut self) -> (field: &mut String)
        ensures
            field@ == field_or_empty(old(self)@.recipient),
            final(self)@ == (CommMessageView { recipient: Some(final(field)@), ..old(self)@ }),
    {
        if self.recipient.is_none() {
            self.recipient = Some(String::new());
        }
        self.recipient.as_mut().unwrap()
    }

    /// Takes the recipient out of the record: what it held, or the empty text where it was absent.
    pub fn take_recipient(&mut self) -> (value: String)
        ensures
            value@ == field_or_empty(old(self)@.recipient),
            final(self)@ == (CommMessageView { recipient: None, ..old(self)@ }),
    {
        match self.recipient.take() {
            Some(value) => value,
            None => String::new(),
        }
    }

    /// The recipient, or the empty text where it is absent.
    pub fn get_recipient(&self) -> (value: &str)
        ensures
            value@ == field_or_empty(self@.recipient),
    {
        match &self.recipient {
            Some(value) => value.as_str(),
            None => empty_text(),
        }
    }

    /// Makes the sender absent.
    pub fn clear_sender(&mut self)
        ensures
            final(self)@ == (CommMessageView { sender: None, ..old(self)@ }),
    {
        self.sender = None;
    }

    /// Whether the sender is present.
    pub fn has_sender(&self) -> (has: bool)
        ensures
            has == self@.sender is Some,
    {
        self.sender.is_some()
    }

    pub fn set_sender(&mut self, v: String)
        ensures
            final(self)@ == (CommMessageView { sender: Some(v@), ..old(self)@ }),
    {
        self.sender = Some(v);
    }

    /// The sender, to change in place. Where it is absent, it is first made present and
    /// empty.
    pub fn mut_sender(&mut self) -> (field: &mut String)
        ensures
            field@ == field_or_empty(old(self)@.sender),
            final(self)@ == (CommMessageView { sender: Some(final(field)@), ..old(self)@ }),
    {
        if self.sender.is_none() {
            self.sender = Some(String::new());
        }
        self.sender.as_mut().unwrap()
    }

    /// Takes the sender out of the record: what it held, or the empty text where it was absent.
    pub fn take_sender(&mut self) -> (value: String)
        ensures
            value@ == field_or_empty(old(self)@.sender),
            final(self)@ == (CommMessageView { sender: None, ..old(self)@ }),
    {
        match self.sender.take() {
            Some(value) => value,
            None => String::new(),
        }
    }

    /// The sender, or the empty text where it is absent.
    pub fn get_sender(&self) -> (value: &str)
        ensures
            value@ == field_or_empty(self@.sender),
    {
        match &self.sender {
            Some(value) => value.as_str(),
            None => empty_text(),
        }
    }

    /// Makes the text absent.
    pub fn clear_text(&mut self)
        ensures
            final(self)@ == (CommMessageView { text: None, ..old(self)@ }),
    {
        self.text = None;
    }

    /// Whether the text is present.
    pub fn has_text(&self) -> (has: bool)
        ensures
            has == self@.text is Some,
    {
        self.text.is_some()
    }

    pub fn set_text(&mut self, v: String)
        ensures
            final(self)@ == (CommMessageView { text: Some(v@), ..old(self)@ }),
    {
        self.text = Some(v);
    }

    /// The text, to change in place. Where it is absent, it is first made present and
    /// empty.
    pub fn mut_text(&mut self) -> (field: &mut String)
        ensures
            field@ == field_or_empty(old(self)@.text),
            final(self)@ == (CommMessageView { text: Some(final(field)@), ..old(self)@ }),
    {
        if self.text.is_none() {
            self.text = Some(String::new());
        }
        self.text.as_mut().unwrap()
    }

    /// Takes the text out of the record: what it held, or the empty text where it was absent.
    pub fn take_text(&mut self) -> (value: String)
        ensures
            value@ == field_or_empty(old(self)@.text),
            final(self)@ == (CommMessageView { text: None, ..old(self)@ }),
    {
        match self.text.take() {
            Some(value) => value,
            None => String::new(),
        }
    }

    /// The text, or the empty text where it is absent.
    pub fn get_text(&self) -> (value: &str)
        ensures
            value@ == field_or_empty(self@.text),
    {
        match &self.text {
            Some(value) => value.as_str(),
            None => empty_text(),
        }
    }
}

} // verus!
