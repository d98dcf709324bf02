//! A framed codec over a growable byte buffer.
//!
//! `PubsubCodec` is the client-side pairing of the decoder and the
//! encoder: `decode` takes complete frames off the front of a buffer
//! one at a time, leaving partial frames in place, and `encode`
//! appends a message's serialised form. The embedding transport owns
//! the buffer and the socket.

use vstd::prelude::*;
use vstd::slice::{slice_subrange, slice_to_vec};

use crate::message::{Message, MessageHeader, MessageBuilder, payload_rule_ok};
use crate::parser::{parse, ParseResult, SpecParse, spec_parse, lemma_spec_parse_bounds};

verus! {

/// The one failure a framed transport surfaces: a malformed frame.
#[derive(PartialEq, Eq, Structural, Debug, Clone, Copy)]
pub enum CodecError {
    InvalidMessage,
}

/// Assemble a message from an already-parsed header and an optional
/// payload, re-checking the construction-time bounds.
pub fn build_message(header: MessageHeader, payload: Option<Vec<u8>>) -> (r: Result<
    Message,
    CodecError,
>)
    ensures
        r is Ok <==> (header.wf() && payload_rule_ok(
            header.message_type,
            match payload {
                Some(p) => Some(p@),
                None => None,
            },
        )),
        r matches Ok(m) ==> {
            &&& m.header.message_type == header.message_type
            &&& m.header.event_name@ == header.event_name@
            &&& (match (m.payload, payload) {
                (Some(a), Some(b)) => a@ == b@,
                (None, None) => true,
                _ => false,
            })
            &&& m.wf()
        },
{
    let mut builder = MessageBuilder::new();
    builder.message_type(header.message_type);
    builder.event_name(header.event_name);
    match payload {
        Some(p) => builder.payload(p),
        None => (),
    }
    match builder.build() {
        Ok(m) => Ok(m),
        Err(_) => Err(CodecError::InvalidMessage),
    }
}

/// The stateless codec: all decoding state lives in the caller's buffer.
pub struct PubsubCodec;

impl PubsubCodec {
    /// Take one complete frame off the front of `buf`.
    ///
    /// `Ok(Some(m))` consumes the frame's bytes; `Ok(None)` means the
    /// buffer holds only a partial frame and is left untouched;
    /// `Err` means the buffer's head is malformed.
    pub fn decode(&mut self, buf: &mut Vec<u8>) -> (r: Result<Option<Message>, CodecError>)
        ensures
            spec_parse(old(buf)@) is Bad <==> r is Err,
            r is Err ==> final(buf)@ == old(buf)@,
            spec_parse(old(buf)@) is More ==> (r == Ok::<Option<Message>, CodecError>(
                None,
            ) && final(buf)@ == old(buf)@),
            spec_parse(old(buf)@) matches SpecParse::Done(mt, name, hl, pl) ==> {
                if mt.spec_expects_payload() {
                    if old(buf)@.len() >= hl + pl {
                        &&& r matches Ok(Some(m))
                        &&& m.header.message_type == mt
                        &&& m.header.event_name@ == name
                        &&& m.payload matches Some(p) && p@ == old(buf)@.subrange(hl, hl + pl)
                        &&& m.wf()
                        &&& final(buf)@ == old(buf)@.subrange(hl + pl, old(buf)@.len() as int)
                    } else {
                        r == Ok::<Option<Message>, CodecError>(None) && final(buf)@ == old(buf)@
                    }
                } else {
                    &&& r matches Ok(Some(m))
                    &&& m.header.message_type == mt
                    &&& m.header.event_name@ == name
                    &&& m.payload is None
                    &&& m.wf()
                    &&& final(buf)@ == old(buf)@.subrange(hl, old(buf)@.len() as int)
                }
            },
    {
        proof {
            if spec_parse(buf@) is Done {
                lemma_spec_parse_bounds(buf@);
            }
        }
        match parse(buf.as_slice()) {
            ParseResult::Completed(header, consumed, payload_len) => {
                proof {
                    vstd::utf8::decode_utf8_encode_utf8(
                        old(buf)@.subrange(2, 2 + old(buf)@[1] as int),
                    );
                }
                if header.message_type.expects_payload() {
                    if buf.len() - consumed >= payload_len {
                        let payload: Vec<u8> = slice_to_vec(
                            slice_subrange(buf.as_slice(), consumed, consumed + payload_len),
                        );
                        let rest: Vec<u8> = slice_to_vec(
                            slice_subrange(buf.as_slice(), consumed + payload_len, buf.len()),
                        );
                        *buf = rest;
                        match build_message(header, Some(payload)) {
                            Ok(m) => Ok(Some(m)),
                            Err(e) => Err(e),
                        }
                    } else {
                        Ok(None)
                    }
                } else {
                    let rest: Vec<u8> = slice_to_vec(
                        slice_subrange(buf.as_slice(), consumed, buf.len()),
                    );
                    *buf = rest;
                    match build_message(header, None) {
                        Ok(m) => Ok(Some(m)),
                        Err(e) => Err(e),
                    }
                }
            },
            ParseResult::Incomplete => Ok(None),
            ParseResult::Error => Err(CodecError::InvalidMessage),
        }
    }

    /// Append a message's serialised form to the outbound buffer.
    pub fn encode(&mut self, msg: Message, buf: &mut Vec<u8>)
        requires
            msg.wf(),
        ensures
            final(buf)@ == old(buf)@ + msg.spec_bytes(),
    {
        let bytes: Vec<u8> = msg.into_bytes();
        buf.extend_from_slice(bytes.as_slice());
    }
}

} // verus!
