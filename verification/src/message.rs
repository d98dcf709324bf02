//! Messages of the wire protocol and the validating builder.
//!
//! A message is a type tag, a topic name (UTF-8, at most 255 bytes),
//! and, for the payload-bearing types, a payload of at most 65535
//! bytes. `MessageBuilder` checks those bounds once, at construction;
//! `Message::into_bytes` then serialises without any failure case.

use vstd::prelude::*;
use vstd::utf8::encode_utf8;

verus! {

/// The byte length the wire format allows for a topic name.
pub const MAX_EVENT_NAME_LEN: usize = 255;

/// The byte length the wire format allows for a payload.
pub const MAX_PAYLOAD_LEN: usize = 65535;

#[derive(PartialEq, Eq, Structural, Debug, Clone, Copy)]
pub enum MessageType {
    Subscribe,
    Unsubscribe,
    Publish,
    Event,
}

impl MessageType {
    /// The tag byte that stands for this type on the wire.
    pub open spec fn spec_code(self) -> u8 {
        match self {
            MessageType::Subscribe => 1,
            MessageType::Unsubscribe => 2,
            MessageType::Publish => 3,
            MessageType::Event => 4,
        }
    }

    pub open spec fn spec_expects_payload(self) -> bool {
        match self {
            MessageType::Subscribe | MessageType::Unsubscribe => false,
            MessageType::Publish | MessageType::Event => true,
        }
    }

    /// Whether a message of this type carries a payload.
    pub fn expects_payload(&self) -> (r: bool)
        ensures
            r == self.spec_expects_payload(),
    {
        match *self {
            MessageType::Subscribe | MessageType::Unsubscribe => false,
            MessageType::Publish | MessageType::Event => true,
        }
    }

    /// The tag byte that stands for this type on the wire.
    pub fn code(&self) -> (r: u8)
        ensures
            r == self.spec_code(),
    {
        match *self {
            MessageType::Subscribe => 1,
            MessageType::Unsubscribe => 2,
            MessageType::Publish => 3,
            MessageType::Event => 4,
        }
    }
}

#[derive(PartialEq, Debug)]
pub struct MessageHeader {
    pub message_type: MessageType,
    pub event_name: String,
}

impl MessageHeader {
    /// The UTF-8 encoding of the topic name: the bytes that go on the wire.
    pub open spec fn spec_name_bytes(self) -> Seq<u8> {
        encode_utf8(self.event_name@)
    }

    /// The name fits in the one-byte length field.
    pub open spec fn wf(self) -> bool {
        self.spec_name_bytes().len() <= MAX_EVENT_NAME_LEN
    }
}

impl Clone for MessageHeader {
    /// A field-for-field copy.
    fn clone(&self) -> (r: Self)
        ensures
            r == *self,
    {
        MessageHeader { message_type: self.message_type, event_name: self.event_name.clone() }
    }
}

#[derive(PartialEq, Debug)]
pub struct Message {
    pub header: MessageHeader,
    pub payload: Option<Vec<u8>>,
}

impl Message {
    /// The construction-time invariant: the name fits its length field,
    /// the payload is present exactly for the types that carry one, and
    /// it fits its length field.
    pub open spec fn wf(self) -> bool {
        &&& self.header.wf()
        &&& (self.header.message_type.spec_expects_payload() <==> self.payload is Some)
        &&& (self.payload matches Some(p) ==> p@.len() <= MAX_PAYLOAD_LEN)
    }

    /// The serialised form: tag byte, name length, name bytes, then for
    /// payload-bearing types the big-endian payload length and the payload.
    pub open spec fn spec_bytes(self) -> Seq<u8> {
        seq![
            self.header.message_type.spec_code(),
            self.header.spec_name_bytes().len() as u8,
        ] + self.header.spec_name_bytes() + match self.payload {
            Some(p) => seq![(p@.len() / 256) as u8, (p@.len() % 256) as u8] + p@,
            None => Seq::<u8>::empty(),
        }
    }

    /// Serialise the message in one pass. Construction-time validation
    /// makes this total: a well-formed message always fits its fields.
    pub fn into_bytes(self) -> (r: Vec<u8>)
        requires
            self.wf(),
        ensures
            r@ == self.spec_bytes(),
    {
        let mut out: Vec<u8> = Vec::new();
        out.push(self.header.message_type.code());
        let name_bytes: &[u8] = self.header.event_name.as_str().as_bytes();
        out.push(name_bytes.len() as u8);
        out.extend_from_slice(name_bytes);
        match self.payload {
            Some(payload) => {
                let len: usize = payload.len();
                assert(len / 256 < 256 && len % 256 < 256) by (nonlinear_arith)
                    requires
                        len <= 65535,
                ;
                out.push((len / 256) as u8);
                out.push((len % 256) as u8);
                out.extend_from_slice(payload.as_slice());
                assert(out@ =~= self.spec_bytes());
            },
            None => {
                assert(out@ =~= self.spec_bytes());
            },
        }
        out
    }
}

#[derive(PartialEq, Debug)]
pub enum MessageBuildError {
    MissingField(String),
    TooLargeField(String),
    InvalidField(String),
}

/// The payload rule for a message type: payload-bearing types need a
/// payload within bounds, the others must not carry one.
pub open spec fn payload_rule_ok(mt: MessageType, payload: Option<Seq<u8>>) -> bool {
    if mt.spec_expects_payload() {
        payload matches Some(p) && p.len() <= MAX_PAYLOAD_LEN
    } else {
        payload is None
    }
}

#[derive(Debug, PartialEq)]
pub struct MessageBuilder {
    message_type: Option<MessageType>,
    event_name: Option<String>,
    payload: Option<Vec<u8>>,
}

impl MessageBuilder {
    pub closed spec fn spec_message_type(&self) -> Option<MessageType> {
        self.message_type
    }

    pub closed spec fn spec_event_name(&self) -> Option<Seq<char>> {
        match self.event_name {
            Some(ref s) => Some(s@),
            None => None,
        }
    }

    pub closed spec fn spec_payload(&self) -> Option<Seq<u8>> {
        match self.payload {
            Some(ref p) => Some(p@),
            None => None,
        }
    }

    /// All fields a complete message needs are set and within bounds.
    /// With `only_header` the payload rule is not consulted.
    pub open spec fn valid(&self, only_header: bool) -> bool {
        &&& self.spec_message_type() is Some
        &&& self.spec_event_name() matches Some(name) && encode_utf8(name).len()
            <= MAX_EVENT_NAME_LEN
        &&& (only_header || payload_rule_ok(self.spec_message_type()->0, self.spec_payload()))
    }

    /// Which validation error an invalid builder state produces.
    pub open spec fn expected_error(&self, only_header: bool, e: MessageBuildError) -> bool {
        let mt = self.spec_message_type();
        let name = self.spec_event_name();
        let pl = self.spec_payload();
        match e {
            MessageBuildError::MissingField(s) => {
                ||| (mt is None && name is None && s@ == "message type, event name"@)
                ||| (mt is None && name is Some && s@ == "message type"@)
                ||| (mt is Some && name is None && s@ == "event name"@)
                ||| ({
                    &&& mt is Some
                    &&& name matches Some(n) && encode_utf8(n).len() <= MAX_EVENT_NAME_LEN
                    &&& !only_header
                    &&& mt->0.spec_expects_payload()
                    &&& pl is None
                    &&& s@ == "payload"@
                })
            },
            MessageBuildError::TooLargeField(s) => {
                ||| ({
                    &&& mt is Some
                    &&& name matches Some(n) && encode_utf8(n).len() > MAX_EVENT_NAME_LEN
                    &&& s@ == "event name"@
                })
                ||| ({
                    &&& mt is Some
                    &&& name matches Some(n) && encode_utf8(n).len() <= MAX_EVENT_NAME_LEN
                    &&& !only_header
                    &&& mt->0.spec_expects_payload()
                    &&& pl matches Some(p) && p.len() > MAX_PAYLOAD_LEN
                    &&& s@ == "payload"@
                })
            },
            MessageBuildError::InvalidField(s) => {
                &&& mt is Some
                &&& name matches Some(n) && encode_utf8(n).len() <= MAX_EVENT_NAME_LEN
                &&& !only_header
                &&& !mt->0.spec_expects_payload()
                &&& pl is Some
                &&& s@ == "payload"@
            },
        }
    }

    pub fn new() -> (r: MessageBuilder)
        ensures
            r.spec_message_type() is None,
            r.spec_event_name() is None,
            r.spec_payload() is None,
    {
        MessageBuilder { message_type: None, event_name: None, payload: None }
    }

    pub fn message_type(&mut self, message_type: MessageType)
        ensures
            final(self).spec_message_type() == Some(message_type),
            final(self).spec_event_name() == old(self).spec_event_name(),
            final(self).spec_payload() == old(self).spec_payload(),
    {
        self.message_type = Some(message_type);
    }

    pub fn event_name(&mut self, event_name: String)
        ensures
            final(self).spec_event_name() == Some(event_name@),
            final(self).spec_message_type() == old(self).spec_message_type(),
            final(self).spec_payload() == old(self).spec_payload(),
    {
        self.event_name = Some(event_name);
    }

    pub fn payload(&mut self, payload: Vec<u8>)
        ensures
            final(self).spec_payload() == Some(payload@),
            final(self).spec_message_type() == old(self).spec_message_type(),
            final(self).spec_event_name() == old(self).spec_event_name(),
    {
        self.payload = Some(payload);
    }

    /// Check the builder state: `Ok` exactly when `valid` holds, and
    /// otherwise the error that `expected_error` assigns to the state.
    pub fn validate(&self, only_header: bool) -> (r: Result<(), MessageBuildError>)
        ensures
            r is Ok <==> self.valid(only_header),
            r matches Err(e) ==> self.expected_error(only_header, e),
    {
        if self.message_type.is_none() && self.event_name.is_none() {
            return Err(MessageBuildError::MissingField("message type, event name".to_owned()));
        }
        if self.message_type.is_none() {
            return Err(MessageBuildError::MissingField("message type".to_owned()));
        }
        let name: &String = match &self.event_name {
            Some(n) => n,
            None => {
                return Err(MessageBuildError::MissingField("event name".to_owned()));
            },
        };
        let name_bytes: &[u8] = name.as_str().as_bytes();
        let name_len: usize = name_bytes.len();
        assert(name_bytes@ == encode_utf8(name@));
        if name_len > MAX_EVENT_NAME_LEN {
            return Err(MessageBuildError::TooLargeField("event name".to_owned()));
        }
        if only_header {
            return Ok(());
        }
        let expects: bool = match &self.message_type {
            Some(mt) => mt.expects_payload(),
            None => false,
        };
        if expects {
            match &self.payload {
                None => {
                    return Err(MessageBuildError::MissingField("payload".to_owned()));
                },
                Some(p) => {
                    if p.len() > MAX_PAYLOAD_LEN {
                        return Err(MessageBuildError::TooLargeField("payload".to_owned()));
                    }
                },
            }
        } else {
            if self.payload.is_some() {
                return Err(MessageBuildError::InvalidField("payload".to_owned()));
            }
        }
        Ok(())
    }

    /// Build just the header, ignoring the payload rule.
    pub fn build_header(self) -> (r: Result<MessageHeader, MessageBuildError>)
        ensures
            r is Ok <==> self.valid(true),
            r matches Ok(h) ==> {
                &&& Some(h.message_type) == self.spec_message_type()
                &&& Some(h.event_name@) == self.spec_event_name()
                &&& h.wf()
            },
            r matches Err(e) ==> self.expected_error(true, e),
    {
        match self.validate(true) {
            Err(e) => Err(e),
            Ok(_) => match (self.message_type, self.event_name) {
                (Some(message_type), Some(event_name)) => Ok(
                    MessageHeader { message_type, event_name },
                ),
                _ => Err(MessageBuildError::MissingField("event name".to_owned())),
            },
        }
    }

    /// Build the full message; `Ok` exactly when the builder is valid,
    /// and the result is well formed and made of the builder's fields.
    pub fn build(self) -> (r: Result<Message, MessageBuildError>)
        ensures
            r is Ok <==> self.valid(false),
            r matches Ok(m) ==> {
                &&& Some(m.header.message_type) == self.spec_message_type()
                &&& Some(m.header.event_name@) == self.spec_event_name()
                &&& m.payload matches Some(p) ==> Some(p@) == self.spec_payload()
                &&& (m.payload is Some <==> self.spec_payload() is Some)
                &&& m.wf()
            },
            r matches Err(e) ==> self.expected_error(false, e),
    {
        match self.validate(false) {
            Err(e) => Err(e),
            Ok(_) => match (self.message_type, self.event_name) {
                (Some(message_type), Some(event_name)) => Ok(
                    Message { header: MessageHeader { message_type, event_name }, payload: self.payload },
                ),
                _ => Err(MessageBuildError::MissingField("event name".to_owned())),
            },
        }
    }
}

impl Default for MessageBuilder {
    /// The empty builder, as `new` returns it.
    fn default() -> (r: Self)
        ensures
            r.spec_message_type() is None,
            r.spec_event_name() is None,
            r.spec_payload() is None,
    {
        MessageBuilder::new()
    }
}

} // verus!
