//! Incremental frame decoding.
//!
//! `parse` examines the start of a byte buffer and either completes a
//! frame header, reports that more bytes are needed, or rejects the
//! prefix. It is pure and restartable: it never consumes its input and
//! never needs the payload bytes to be present. `spec_parse` is the
//! mathematical model every contract here refers to.

use vstd::prelude::*;
use vstd::slice::{slice_subrange, slice_index_get};
use vstd::utf8::{valid_utf8, decode_utf8, encode_utf8_valid_utf8, encode_utf8_decode_utf8};
use vstd::arithmetic::div_mod::lemma_fundamental_div_mod;

use crate::message::{Message, MessageHeader, MessageType};

verus! {

/// The value of a big-endian pair of length bytes.
pub open spec fn u16_be(hi: u8, lo: u8) -> int {
    hi * 256 + lo
}

/// The message type a tag byte stands for; meaningful for bytes 1 to 4.
pub open spec fn spec_type_of_code(code: u8) -> MessageType {
    if code == 1 {
        MessageType::Subscribe
    } else if code == 2 {
        MessageType::Unsubscribe
    } else if code == 3 {
        MessageType::Publish
    } else {
        MessageType::Event
    }
}

/// What examining the start of a byte stream yields: a completed
/// header (type, name, header size, announced payload size), a need
/// for more bytes, or a malformed prefix.
pub enum SpecParse {
    Done(MessageType, Seq<char>, int, int),
    More,
    Bad,
}

impl SpecParse {
    pub open spec fn done_type(self) -> MessageType {
        match self {
            SpecParse::Done(mt, _, _, _) => mt,
            _ => MessageType::Subscribe,
        }
    }

    pub open spec fn done_name(self) -> Seq<char> {
        match self {
            SpecParse::Done(_, name, _, _) => name,
            _ => Seq::<char>::empty(),
        }
    }

    pub open spec fn done_header_len(self) -> int {
        match self {
            SpecParse::Done(_, _, hl, _) => hl,
            _ => 0,
        }
    }

    pub open spec fn done_payload_len(self) -> int {
        match self {
            SpecParse::Done(_, _, _, pl) => pl,
            _ => 0,
        }
    }
}

/// The decode model. A header is: tag byte, name-length byte `n`,
/// `n` name bytes (which must be UTF-8), and, for payload-bearing
/// types, two big-endian payload-length bytes.
pub open spec fn spec_parse(data: Seq<u8>) -> SpecParse {
    if data.len() == 0 {
        SpecParse::More
    } else if !(1 <= data[0] && data[0] <= 4) {
        SpecParse::Bad
    } else {
        let mt = spec_type_of_code(data[0]);
        if data.len() < 2 {
            SpecParse::More
        } else {
            let n = data[1] as int;
            if data.len() < 2 + n {
                SpecParse::More
            } else {
                let name_bytes = data.subrange(2, 2 + n);
                if !valid_utf8(name_bytes) {
                    SpecParse::Bad
                } else if !mt.spec_expects_payload() {
                    SpecParse::Done(mt, decode_utf8(name_bytes), 2 + n, 0)
                } else if data.len() < 4 + n {
                    SpecParse::More
                } else {
                    SpecParse::Done(
                        mt,
                        decode_utf8(name_bytes),
                        4 + n,
                        u16_be(data[2 + n], data[3 + n]),
                    )
                }
            }
        }
    }
}

#[derive(PartialEq, Debug)]
pub enum ParseResult {
    Completed(MessageHeader, usize, usize),
    Incomplete,
    Error,
}

#[derive(PartialEq, Eq, Structural, Debug, Clone, Copy)]
pub enum ParserError {
    InsufficientData,
    InvalidValue,
}

impl From<ParserError> for ParseResult {
    /// Missing bytes mean an incomplete frame; a bad value means a
    /// malformed one.
    fn from(err: ParserError) -> (r: ParseResult) {
        match err {
            ParserError::InsufficientData => ParseResult::Incomplete,
            ParserError::InvalidValue => ParseResult::Error,
        }
    }
}

impl vstd::std_specs::convert::FromSpecImpl<ParserError> for ParseResult {
    open spec fn obeys_from_spec() -> bool {
        true
    }

    open spec fn from_spec(err: ParserError) -> ParseResult {
        match err {
            ParserError::InsufficientData => ParseResult::Incomplete,
            ParserError::InvalidValue => ParseResult::Error,
        }
    }
}

/// Split off the first `n` bytes, or report that fewer are there.
pub fn take_n<'a>(n: usize, b: &'a [u8]) -> (r: Option<(&'a [u8], &'a [u8])>)
    ensures
        b@.len() < n ==> r is None,
        b@.len() >= n ==> (r matches Some((first, rest)) && first@ == b@.subrange(0, n as int)
            && rest@ == b@.subrange(n as int, b@.len() as int)),
{
    if b.len() < n {
        None
    } else {
        Some((slice_subrange(b, 0, n), slice_subrange(b, n, b.len())))
    }
}

/// Read one byte and hand back the remainder.
pub fn read_u8<'a>(b: &'a [u8]) -> (r: Option<(u8, &'a [u8])>)
    ensures
        b@.len() == 0 ==> r is None,
        b@.len() > 0 ==> (r matches Some((v, rest)) && v == b@[0] && rest@ == b@.subrange(
            1,
            b@.len() as int,
        )),
{
    if b.len() == 0 {
        None
    } else {
        Some((*slice_index_get(b, 0), slice_subrange(b, 1, b.len())))
    }
}

/// Read a big-endian two-byte integer and hand back the remainder.
pub fn read_u16<'a>(b: &'a [u8]) -> (r: Option<(u16, &'a [u8])>)
    ensures
        b@.len() < 2 ==> r is None,
        b@.len() >= 2 ==> (r matches Some((v, rest)) && v == u16_be(b@[0], b@[1]) && rest@
            == b@.subrange(2, b@.len() as int)),
{
    if b.len() < 2 {
        None
    } else {
        let hi: u8 = *slice_index_get(b, 0);
        let lo: u8 = *slice_index_get(b, 1);
        let v: u16 = (hi as u16) * 256 + (lo as u16);
        Some((v, slice_subrange(b, 2, b.len())))
    }
}

/// The message type a tag byte stands for; bytes outside 1 to 4 are
/// rejected.
pub fn match_message_type(val: u8) -> (r: Result<MessageType, ParserError>)
    ensures
        1 <= val <= 4 ==> (r matches Ok(mt) && mt == spec_type_of_code(val) && mt.spec_code()
            == val),
        !(1 <= val <= 4) ==> (r matches Err(e) && e == ParserError::InvalidValue),
{
    if val == 1 {
        Ok(MessageType::Subscribe)
    } else if val == 2 {
        Ok(MessageType::Unsubscribe)
    } else if val == 3 {
        Ok(MessageType::Publish)
    } else if val == 4 {
        Ok(MessageType::Event)
    } else {
        Err(ParserError::InvalidValue)
    }
}

/// Read the tag byte and decide the message type.
pub fn read_message_type<'a>(b: &'a [u8]) -> (r: Result<(MessageType, &'a [u8]), ParserError>)
    ensures
        b@.len() == 0 ==> (r matches Err(e) && e == ParserError::InsufficientData),
        b@.len() > 0 && !(1 <= b@[0] <= 4) ==> (r matches Err(e) && e == ParserError::InvalidValue),
        b@.len() > 0 && 1 <= b@[0] <= 4 ==> (r matches Ok((mt, rest)) && mt == spec_type_of_code(
            b@[0],
        ) && rest@ == b@.subrange(1, b@.len() as int)),
{
    match read_u8(b) {
        Some((val, remainder)) => {
            match match_message_type(val) {
                Ok(message_type) => Ok((message_type, remainder)),
                Err(e) => Err(e),
            }
        },
        None => Err(ParserError::InsufficientData),
    }
}

/// Relies on std::str::from_utf8: it returns `Ok` exactly when the
/// bytes are valid UTF-8, and then views those very bytes as a string.
#[verifier::external_body]
fn utf8_str<'a>(b: &'a [u8]) -> (r: Option<&'a str>)
    ensures
        r is Some <==> valid_utf8(b@),
        r matches Some(s) ==> s@ == decode_utf8(b@),
{
    std::str::from_utf8(b).ok()
}

/// Take the announced number of name bytes and decode them as UTF-8.
pub fn read_event_name<'a>(b: &'a [u8], event_name_len: u8) -> (r: Result<
    (String, &'a [u8]),
    ParserError,
>)
    ensures
        b@.len() < event_name_len ==> (r matches Err(e) && e == ParserError::InsufficientData),
        b@.len() >= event_name_len && !valid_utf8(b@.subrange(0, event_name_len as int)) ==> (
        r matches Err(e) && e == ParserError::InvalidValue),
        b@.len() >= event_name_len && valid_utf8(b@.subrange(0, event_name_len as int)) ==> (
        r matches Ok((name, rest)) && name@ == decode_utf8(b@.subrange(0, event_name_len as int))
            && rest@ == b@.subrange(event_name_len as int, b@.len() as int)),
{
    match take_n(event_name_len as usize, b) {
        None => Err(ParserError::InsufficientData),
        Some((event_name_bytes, rest)) => {
            match utf8_str(event_name_bytes) {
                None => Err(ParserError::InvalidValue),
                Some(s) => Ok((s.to_owned(), rest)),
            }
        },
    }
}

/// Decode one frame header from the start of `data`, as `spec_parse`
/// describes it: the returned sizes are the header size in bytes and
/// the announced payload size, which the caller consumes separately.
pub fn parse(data: &[u8]) -> (r: ParseResult)
    ensures
        spec_parse(data@) is More ==> r == ParseResult::Incomplete,
        spec_parse(data@) is Bad ==> r == ParseResult::Error,
        spec_parse(data@) matches SpecParse::Done(mt, name, header_len, payload_len) ==> (
        r matches ParseResult::Completed(h, c, p) && h.message_type == mt && h.event_name@ == name
            && c == header_len && p == payload_len),
{
    let (message_type, after_type) = match read_message_type(data) {
        Ok(x) => x,
        Err(ParserError::InsufficientData) => {
            return ParseResult::Incomplete;
        },
        Err(ParserError::InvalidValue) => {
            return ParseResult::Error;
        },
    };
    let (name_len, after_len) = match read_u8(after_type) {
        Some(x) => x,
        None => {
            return ParseResult::Incomplete;
        },
    };
    proof {
        assert(after_len@ =~= data@.subrange(2, data@.len() as int));
        assert(data@.len() >= 2 + name_len ==> after_len@.subrange(0, name_len as int)
            =~= data@.subrange(2, 2 + name_len as int));
    }
    let (event_name, after_name) = match read_event_name(after_len, name_len) {
        Ok(x) => x,
        Err(ParserError::InsufficientData) => {
            return ParseResult::Incomplete;
        },
        Err(ParserError::InvalidValue) => {
            return ParseResult::Error;
        },
    };
    let header = MessageHeader { message_type, event_name };
    if message_type.expects_payload() {
        match read_u16(after_name) {
            Some((payload_len, _)) => {
                proof {
                    assert(after_name@[0] == data@[2 + name_len as int]);
                    assert(after_name@[1] == data@[3 + name_len as int]);
                }
                ParseResult::Completed(header, 4 + name_len as usize, payload_len as usize)
            },
            None => ParseResult::Incomplete,
        }
    } else {
        ParseResult::Completed(header, 2 + name_len as usize, 0)
    }
}

/// A completed header fits in its buffer and respects the field
/// bounds of the wire format.
pub proof fn lemma_spec_parse_bounds(data: Seq<u8>)
    requires
        spec_parse(data) is Done,
    ensures
        2 <= spec_parse(data).done_header_len() <= 259,
        spec_parse(data).done_header_len() <= data.len(),
        0 <= spec_parse(data).done_payload_len() <= 65535,
        spec_parse(data).done_type() == spec_type_of_code(data[0]),
{
}

/// A proper prefix of a frame's header never decodes to anything:
/// the decoder waits for the rest.
pub proof fn lemma_parse_prefix_incomplete(whole: Seq<u8>, i: int)
    requires
        spec_parse(whole) is Done,
        0 <= i < spec_parse(whole).done_header_len(),
    ensures
        spec_parse(whole.subrange(0, i)) is More,
{
    let p = whole.subrange(0, i);
    if i >= 2 {
        assert(p[0] == whole[0]);
        assert(p[1] == whole[1]);
        let n = whole[1] as int;
        if i >= 2 + n {
            assert(p.subrange(2, 2 + n) =~= whole.subrange(2, 2 + n));
        }
    } else if i == 1 {
        assert(p[0] == whole[0]);
    }
}

/// Once a header is complete, later bytes cannot change what it
/// decodes to: the decoder reads nothing past the header.
pub proof fn lemma_parse_extension(whole: Seq<u8>, ext: Seq<u8>)
    requires
        spec_parse(whole) is Done,
    ensures
        spec_parse(whole + ext) == spec_parse(whole),
{
    let w = whole + ext;
    assert(w[0] == whole[0]);
    assert(w[1] == whole[1]);
    let n = whole[1] as int;
    assert(w.subrange(2, 2 + n) =~= whole.subrange(2, 2 + n));
    if spec_type_of_code(whole[0]).spec_expects_payload() {
        assert(w[2 + n] == whole[2 + n]);
        assert(w[3 + n] == whole[3 + n]);
    }
}

/// Round trip: the encoding of a well-formed message decodes to a
/// completed header with the same type and name, the header and
/// announced payload sizes cover the encoding exactly, and the bytes
/// after the header are exactly the payload.
pub proof fn lemma_parse_round_trip(m: Message)
    requires
        m.wf(),
    ensures
        ({
            let bytes = m.spec_bytes();
            let p = spec_parse(bytes);
            &&& p is Done
            &&& p.done_type() == m.header.message_type
            &&& p.done_name() == m.header.event_name@
            &&& p.done_header_len() + p.done_payload_len() == bytes.len()
            &&& (m.payload matches Some(pl) ==> bytes.subrange(
                p.done_header_len(),
                bytes.len() as int,
            ) == pl@)
            &&& (m.payload is None ==> p.done_payload_len() == 0)
        }),
{
    let bytes = m.spec_bytes();
    let nb = m.header.spec_name_bytes();
    let n = nb.len() as int;
    let code = m.header.message_type.spec_code();
    encode_utf8_valid_utf8(m.header.event_name@);
    encode_utf8_decode_utf8(m.header.event_name@);
    assert(bytes[0] == code);
    assert(1 <= code <= 4);
    assert(spec_type_of_code(code) == m.header.message_type);
    assert(bytes[1] == n as u8);
    assert(bytes.subrange(2, 2 + n) =~= nb);
    match m.payload {
        Some(pl) => {
            let plen = pl@.len() as int;
            assert(plen / 256 < 256 && plen % 256 >= 0 && plen % 256 < 256) by (nonlinear_arith)
                requires
                    0 <= plen <= 65535,
            ;
            assert(bytes.len() == 4 + n + plen);
            assert(bytes[2 + n] == (plen / 256) as u8);
            assert(bytes[3 + n] == (plen % 256) as u8);
            lemma_fundamental_div_mod(plen, 256);
            assert(u16_be((plen / 256) as u8, (plen % 256) as u8) == plen);
            assert(bytes.subrange(4 + n, bytes.len() as int) =~= pl@);
        },
        None => {
            assert(bytes.len() == 2 + n);
        },
    }
}

} // verus!
