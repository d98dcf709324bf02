//! The per-connection state machine.
//!
//! Bytes handed in by the transport accumulate in a fixed-size read
//! buffer; `handle_read` runs the restartable decoder over them and
//! emits one semantic action per completed frame. The write side is a
//! FIFO of `EventId`s plus an offset into the frame currently being
//! drained. `drain_one` is the spec-level step every read-path
//! contract refers to.

use vstd::prelude::*;
use vstd::slice::{slice_subrange, slice_index_get, slice_to_vec};
use vstd::utf8::{encode_utf8, encode_utf8_valid_utf8, encode_utf8_decode_utf8,
    decode_utf8_encode_utf8};
use vstd::arithmetic::div_mod::{lemma_fundamental_div_mod, lemma_fundamental_div_mod_converse};

use crate::MAX_PACKET_SIZE;
use crate::message::{MessageHeader, MessageType};
use crate::parser::{parse, ParseResult, SpecParse, spec_parse, lemma_spec_parse_bounds};
use crate::pending_event::{EventId, EventInfo, PendingEvents, release_all, release_one};
use std::collections::VecDeque;

verus! {

/// What one decoded frame asks the broker to do.
pub enum ClientAction {
    Subscribe(String),
    Publish(String, Vec<u8>),
    Unsubscribe(String),
    Error,
    Nothing,
}

/// The spec-level counterpart of a `ClientAction`; `Reject` stands
/// for everything fatal (a malformed frame, or a client-sent Event).
pub enum SpecAction {
    Subscribe(Seq<char>),
    Unsubscribe(Seq<char>),
    Publish(Seq<char>, Seq<u8>),
    Reject,
}

impl ClientAction {
    /// The spec action an emitted action stands for; `Nothing` stands
    /// for none.
    pub open spec fn spec_action(self) -> Option<SpecAction> {
        match self {
            ClientAction::Subscribe(n) => Some(SpecAction::Subscribe(n@)),
            ClientAction::Unsubscribe(n) => Some(SpecAction::Unsubscribe(n@)),
            ClientAction::Publish(n, p) => Some(SpecAction::Publish(n@, p@)),
            ClientAction::Error => Some(SpecAction::Reject),
            ClientAction::Nothing => None,
        }
    }
}

/// The header bytes of a Publish frame with the given name and
/// announced payload length.
pub open spec fn publish_header_bytes(name: Seq<char>, payload_len: int) -> Seq<u8> {
    seq![3u8, encode_utf8(name).len() as u8] + encode_utf8(name) + seq![
        (payload_len / 256) as u8,
        (payload_len % 256) as u8,
    ]
}

/// One step of the connection's decode loop over the bytes it has
/// accepted but not yet answered: the next action and the bytes left,
/// or nothing when a frame is still incomplete.
pub open spec fn drain_one(bytes: Seq<u8>) -> Option<(SpecAction, Seq<u8>)> {
    match spec_parse(bytes) {
        SpecParse::Bad => Some((SpecAction::Reject, bytes)),
        SpecParse::More => None,
        SpecParse::Done(mt, name, hl, pl) => match mt {
            MessageType::Subscribe => Some((SpecAction::Subscribe(name), bytes.skip(hl))),
            MessageType::Unsubscribe => Some((SpecAction::Unsubscribe(name), bytes.skip(hl))),
            MessageType::Event => Some((SpecAction::Reject, bytes)),
            MessageType::Publish => if bytes.len() >= hl + pl {
                Some(
                    (
                        SpecAction::Publish(name, bytes.subrange(hl, hl + pl)),
                        bytes.skip(hl + pl),
                    ),
                )
            } else {
                None
            },
        },
    }
}

/// A Publish header followed by anything decodes back to exactly that
/// header.
pub proof fn lemma_parse_publish_header(name: Seq<char>, payload_len: int, tail: Seq<u8>)
    requires
        encode_utf8(name).len() <= 255,
        0 <= payload_len <= 65535,
    ensures
        spec_parse(publish_header_bytes(name, payload_len) + tail) == SpecParse::Done(
            MessageType::Publish,
            name,
            publish_header_bytes(name, payload_len).len() as int,
            payload_len,
        ),
{
    let hb = publish_header_bytes(name, payload_len);
    let data = hb + tail;
    let nb = encode_utf8(name);
    let n = nb.len() as int;
    encode_utf8_valid_utf8(name);
    encode_utf8_decode_utf8(name);
    assert(payload_len / 256 < 256 && payload_len % 256 >= 0 && payload_len % 256 < 256)
        by (nonlinear_arith)
        requires
            0 <= payload_len <= 65535,
    ;
    assert(data[0] == 3u8);
    assert(data[1] == n as u8);
    assert(data.subrange(2, 2 + n) =~= nb);
    assert(data[2 + n] == (payload_len / 256) as u8);
    assert(data[3 + n] == (payload_len % 256) as u8);
    lemma_fundamental_div_mod(payload_len, 256);
}

/// A decoded Publish header re-encodes to the very bytes it came
/// from: nothing is lost by holding the header instead of its bytes.
pub proof fn lemma_publish_header_reencode(data: Seq<u8>)
    requires
        spec_parse(data) is Done,
        spec_parse(data).done_type() == MessageType::Publish,
    ensures
        publish_header_bytes(
            spec_parse(data).done_name(),
            spec_parse(data).done_payload_len(),
        ) =~= data.subrange(0, spec_parse(data).done_header_len()),
{
    let p = spec_parse(data);
    let n = data[1] as int;
    let nb = data.subrange(2, 2 + n);
    decode_utf8_encode_utf8(nb);
    assert(data[0] == 3u8);
    let hi = data[2 + n];
    let lo = data[3 + n];
    lemma_fundamental_div_mod_converse(hi * 256 + lo, 256, hi as int, lo as int);
}

/// The fixed-size read buffer: a window of received, unconsumed bytes
/// inside storage big enough for one maximum frame.
pub struct Buffer {
    buf: Vec<u8>,
    read_index: usize,
    write_index: usize,
}

impl Buffer {
    pub closed spec fn wf(&self) -> bool {
        &&& self.read_index <= self.write_index
        &&& self.write_index <= self.buf@.len()
        &&& self.buf@.len() == MAX_PACKET_SIZE
    }

    /// The received bytes not yet consumed by the decoder.
    pub closed spec fn pending(&self) -> Seq<u8> {
        self.buf@.subrange(self.read_index as int, self.write_index as int)
    }

    /// How many more bytes fit before the next compaction.
    pub closed spec fn free_len(&self) -> int {
        MAX_PACKET_SIZE - self.write_index
    }

    pub closed spec fn spec_read_index(&self) -> int {
        self.read_index as int
    }

    pub fn new() -> (r: Buffer)
        ensures
            r.wf(),
            r.pending() == Seq::<u8>::empty(),
            r.free_len() == MAX_PACKET_SIZE,
            r.spec_read_index() == 0,
    {
        Buffer { buf: vec![0u8; MAX_PACKET_SIZE], read_index: 0, write_index: 0 }
    }

    /// Forget everything: the whole buffer is writable again.
    pub fn reset(&mut self)
        requires
            old(self).wf(),
        ensures
            final(self).wf(),
            final(self).pending() == Seq::<u8>::empty(),
            final(self).free_len() == MAX_PACKET_SIZE,
            final(self).spec_read_index() == 0,
    {
        self.read_index = 0;
        self.write_index = 0;
    }

    /// Shift the unconsumed tail to the front so a full maximum frame
    /// fits again behind it.
    pub fn reshuffle(&mut self, remaining_bytes: usize)
        requires
            old(self).wf(),
            remaining_bytes == old(self).pending().len(),
        ensures
            final(self).wf(),
            final(self).pending() == old(self).pending(),
            final(self).free_len() == MAX_PACKET_SIZE - remaining_bytes,
            final(self).spec_read_index() == 0,
    {
        let ghost old_buf = self.buf@;
        let start: usize = self.write_index - remaining_bytes;
        let mut i: usize = 0;
        while i < remaining_bytes
            invariant
                i <= remaining_bytes,
                start + remaining_bytes == self.write_index,
                self.write_index <= self.buf@.len(),
                self.buf@.len() == MAX_PACKET_SIZE,
                self.read_index == start,
                forall|m: int| 0 <= m < i ==> #[trigger] self.buf@[m] == old_buf[start + m],
                forall|m: int|
                    i <= m < remaining_bytes ==> #[trigger] self.buf@[start + m] == old_buf[start
                        + m],
            decreases remaining_bytes - i,
        {
            let b: u8 = self.buf[start + i];
            self.buf[i] = b;
            i = i + 1;
        }
        self.read_index = 0;
        self.write_index = remaining_bytes;
        proof {
            assert(final(self).pending() =~= old(self).pending());
        }
    }

    /// Copy freshly received bytes in behind the pending ones.
    pub fn append(&mut self, data: &[u8])
        requires
            old(self).wf(),
            data@.len() <= old(self).free_len(),
        ensures
            final(self).wf(),
            final(self).pending() == old(self).pending() + data@,
            final(self).free_len() == old(self).free_len() - data@.len(),
            final(self).spec_read_index() == old(self).spec_read_index(),
    {
        let ghost old_buf = self.buf@;
        let base: usize = self.write_index;
        let mut i: usize = 0;
        while i < data.len()
            invariant
                i <= data@.len(),
                base + data@.len() <= self.buf@.len(),
                self.buf@.len() == MAX_PACKET_SIZE,
                self.write_index == base,
                self.read_index == old(self).read_index,
                self.read_index <= self.write_index,
                forall|m: int| 0 <= m < base ==> #[trigger] self.buf@[m] == old_buf[m],
                forall|m: int| base <= m < base + i ==> #[trigger] self.buf@[m] == data@[m - base],
            decreases data@.len() - i,
        {
            let b: u8 = *slice_index_get(data, i);
            self.buf[base + i] = b;
            i = i + 1;
            proof {
                assert(self.buf@[base + (i - 1)] == data@[i - 1]);
            }
        }
        self.write_index = self.write_index + data.len();
        proof {
            assert(final(self).pending() =~= old(self).pending() + data@);
        }
    }

    /// The first `bytes` pending bytes, for the decoder to look at.
    pub fn read_bytes(&self, bytes: usize) -> (r: &[u8])
        requires
            self.wf(),
            bytes <= self.pending().len(),
        ensures
            r@ == self.pending().subrange(0, bytes as int),
    {
        let r = slice_subrange(self.buf.as_slice(), self.read_index, self.read_index + bytes);
        proof {
            assert(r@ =~= self.pending().subrange(0, bytes as int));
        }
        r
    }

    /// The decoder is done with the first `bytes` pending bytes.
    pub fn consume(&mut self, bytes: usize)
        requires
            old(self).wf(),
            bytes <= old(self).pending().len(),
        ensures
            final(self).wf(),
            final(self).pending() == old(self).pending().skip(bytes as int),
            final(self).free_len() == old(self).free_len(),
            final(self).spec_read_index() == old(self).spec_read_index() + bytes,
    {
        self.read_index = self.read_index + bytes;
        proof {
            assert(final(self).pending() =~= old(self).pending().skip(bytes as int));
        }
    }

    /// How many received bytes are still unconsumed.
    pub fn unused_bytes(&self) -> (r: usize)
        requires
            self.wf(),
        ensures
            r == self.pending().len(),
    {
        self.write_index - self.read_index
    }

    /// How many more bytes can be received before compaction.
    pub fn free_space(&self) -> (r: usize)
        requires
            self.wf(),
        ensures
            r == self.free_len(),
    {
        MAX_PACKET_SIZE - self.write_index
    }
}

/// The FIFO of events awaiting transmission on one connection, and
/// the offset already written of the frame at its head.
pub struct WriteQueue {
    queue: VecDeque<EventId>,
    write_index: usize,
}

impl WriteQueue {
    pub closed spec fn spec_queue(&self) -> Seq<EventId> {
        self.queue@
    }

    pub closed spec fn spec_offset(&self) -> int {
        self.write_index as int
    }

    pub fn new() -> (r: WriteQueue)
        ensures
            r.spec_queue() == Seq::<EventId>::empty(),
            r.spec_offset() == 0,
    {
        WriteQueue { queue: VecDeque::new(), write_index: 0 }
    }

    pub fn add_event(&mut self, event_id: EventId)
        ensures
            final(self).spec_queue() == old(self).spec_queue().push(event_id),
            final(self).spec_offset() == old(self).spec_offset(),
    {
        self.queue.push_back(event_id);
    }

    /// The event at the head of the queue.
    pub fn current_event_id(&self) -> (r: EventId)
        requires
            self.spec_queue().len() > 0,
        ensures
            r == self.spec_queue()[0],
    {
        self.queue[0]
    }

    pub fn has_events_pending(&self) -> (r: bool)
        ensures
            r == (self.spec_queue().len() > 0),
    {
        self.queue.len() > 0
    }

    /// How much of the head frame is already written.
    pub fn write_offset(&self) -> (r: usize)
        ensures
            r == self.spec_offset(),
    {
        self.write_index
    }

    /// Another `written` bytes of the head frame went out.
    pub fn advance(&mut self, written: usize)
        requires
            old(self).spec_offset() + written <= usize::MAX,
        ensures
            final(self).spec_queue() == old(self).spec_queue(),
            final(self).spec_offset() == old(self).spec_offset() + written,
    {
        self.write_index = self.write_index + written;
    }

    /// The head frame is fully drained: drop it and rewind the offset.
    pub fn finish_current_event(&mut self) -> (r: EventId)
        requires
            old(self).spec_queue().len() > 0,
        ensures
            r == old(self).spec_queue()[0],
            final(self).spec_queue() == old(self).spec_queue().skip(1),
            final(self).spec_offset() == 0,
    {
        let event_id: EventId = match self.queue.pop_front() {
            Some(id) => id,
            None => 0,
        };
        self.write_index = 0;
        proof {
            assert(final(self).spec_queue() =~= old(self).spec_queue().skip(1));
        }
        event_id
    }
}

/// Where the decoder stands: collecting header bytes, or collecting
/// the payload a completed Publish header announced.
enum ReadState {
    Header(usize),
    Payload(MessageHeader, usize, usize),
}

/// One connection's state: its stable id, the decode state with its
/// read buffer, and the outbound queue.
pub struct PubsubClient {
    token: usize,
    read_state: ReadState,
    write_queue: WriteQueue,
    buffer: Buffer,
}

impl PubsubClient {
    /// The bytes this connection has accepted and not yet answered
    /// with an action: in the payload phase, that includes the header
    /// bytes already taken off the buffer.
    pub closed spec fn residue(&self) -> Seq<u8> {
        match self.read_state {
            ReadState::Header(_) => self.buffer.pending(),
            ReadState::Payload(h, _, pl) => publish_header_bytes(h.event_name@, pl as int)
                + self.buffer.pending(),
        }
    }

    /// The byte count the decode state has already accounted for.
    pub closed spec fn state_count(&self) -> int {
        match self.read_state {
            ReadState::Header(n) => n as int,
            ReadState::Payload(_, n, _) => n as int,
        }
    }

    /// The received bytes sitting in the read buffer.
    pub closed spec fn buffered(&self) -> Seq<u8> {
        self.buffer.pending()
    }

    pub closed spec fn spec_queue(&self) -> Seq<EventId> {
        self.write_queue.spec_queue()
    }

    pub closed spec fn spec_offset(&self) -> int {
        self.write_queue.spec_offset()
    }

    pub closed spec fn spec_token(&self) -> int {
        self.token as int
    }

    pub closed spec fn spec_free(&self) -> int {
        self.buffer.free_len()
    }

    pub closed spec fn wf(&self) -> bool {
        &&& self.buffer.wf()
        &&& match self.read_state {
            ReadState::Header(_) => self.buffer.spec_read_index() == 0,
            ReadState::Payload(h, n, pl) => {
                &&& h.message_type == MessageType::Publish
                &&& h.wf()
                &&& n < pl <= 65535
                &&& self.buffer.spec_read_index() == 4 + h.spec_name_bytes().len()
            },
        }
    }

    /// A connection in its steady state: every buffered byte is
    /// accounted for by the decode state.
    pub open spec fn steady(&self) -> bool {
        &&& self.wf()
        &&& self.state_count() == self.buffered().len()
    }

    pub fn new(token: usize) -> (r: PubsubClient)
        ensures
            r.steady(),
            r.residue() == Seq::<u8>::empty(),
            r.spec_queue() == Seq::<EventId>::empty(),
            r.spec_offset() == 0,
            r.spec_token() == token,
            r.spec_free() == MAX_PACKET_SIZE,
    {
        PubsubClient {
            token,
            read_state: ReadState::Header(0),
            write_queue: WriteQueue::new(),
            buffer: Buffer::new(),
        }
    }

    /// This connection's stable id.
    pub fn token(&self) -> (r: usize)
        ensures
            r == self.spec_token(),
    {
        self.token
    }

    /// How many bytes the transport may hand to `read` next.
    pub fn free_space(&self) -> (r: usize)
        requires
            self.wf(),
        ensures
            r == self.spec_free(),
    {
        self.buffer.free_space()
    }

    /// Whether the transport should watch this connection for
    /// writability.
    pub fn has_events_pending(&self) -> (r: bool)
        ensures
            r == (self.spec_queue().len() > 0),
    {
        self.write_queue.has_events_pending()
    }

    /// Compact the buffer after a frame completed (or failed), and
    /// restart header collection on whatever bytes follow it.
    fn on_packet_complete(&mut self)
        requires
            old(self).buffer.wf(),
        ensures
            final(self).wf(),
            final(self).buffered() == old(self).buffered(),
            final(self).residue() == old(self).buffered(),
            final(self).state_count() == final(self).buffered().len(),
            final(self).spec_free() == MAX_PACKET_SIZE - old(self).buffered().len(),
            final(self).spec_queue() == old(self).spec_queue(),
            final(self).spec_offset() == old(self).spec_offset(),
            final(self).spec_token() == old(self).spec_token(),
    {
        let unused_bytes: usize = self.buffer.unused_bytes();
        if unused_bytes > 0 {
            self.buffer.reshuffle(unused_bytes);
        } else {
            self.buffer.reset();
        }
        self.read_state = ReadState::Header(unused_bytes);
    }

    /// Classify one completed header: emit the action it stands for,
    /// or start collecting the payload it announces.
    fn on_header(&mut self, header: MessageHeader, remaining_in_buffer: usize, payload_len: usize)
        -> (r: Option<ClientAction>)
        requires
            old(self).buffer.wf(),
            old(self).buffered().len() == remaining_in_buffer,
            payload_len <= 65535,
            header.wf(),
            header.message_type == MessageType::Publish ==> old(self).buffer.spec_read_index()
                == 4 + header.spec_name_bytes().len(),
        ensures
            final(self).write_queue == old(self).write_queue,
            final(self).token == old(self).token,
            final(self).buffer.wf(),
            match header.message_type {
                MessageType::Subscribe => {
                    &&& r matches Some(a)
                    &&& a matches ClientAction::Subscribe(n) && n@ == header.event_name@
                    &&& final(self).buffer == old(self).buffer
                    &&& final(self).read_state == old(self).read_state
                },
                MessageType::Unsubscribe => {
                    &&& r matches Some(a)
                    &&& a matches ClientAction::Unsubscribe(n) && n@ == header.event_name@
                    &&& final(self).buffer == old(self).buffer
                    &&& final(self).read_state == old(self).read_state
                },
                MessageType::Event => {
                    &&& r matches Some(a) && a is Error
                    &&& final(self).buffer == old(self).buffer
                    &&& final(self).read_state == old(self).read_state
                },
                MessageType::Publish => {
                    if remaining_in_buffer >= payload_len {
                        &&& r matches Some(a)
                        &&& a matches ClientAction::Publish(n, p) && n@ == header.event_name@
                            && p@ == old(self).buffered().subrange(0, payload_len as int)
                        &&& final(self).buffered() == old(self).buffered().skip(
                            payload_len as int,
                        )
                        &&& final(self).buffer.free_len() == old(self).buffer.free_len()
                        &&& final(self).read_state == old(self).read_state
                    } else {
                        &&& r is None
                        &&& final(self).read_state == (ReadState::Payload(
                            header,
                            remaining_in_buffer,
                            payload_len,
                        ))
                        &&& final(self).buffer == old(self).buffer
                    }
                },
            },
    {
        match header.message_type {
            MessageType::Subscribe => Some(ClientAction::Subscribe(header.event_name)),
            MessageType::Unsubscribe => Some(ClientAction::Unsubscribe(header.event_name)),
            MessageType::Publish => {
                if remaining_in_buffer >= payload_len {
                    let payload: Vec<u8> = slice_to_vec(self.buffer.read_bytes(payload_len));
                    self.buffer.consume(payload_len);
                    Some(ClientAction::Publish(header.event_name, payload))
                } else {
                    self.read_state = ReadState::Payload(header, remaining_in_buffer, payload_len);
                    None
                }
            },
            MessageType::Event => Some(ClientAction::Error),
        }
    }

    /// Run one step of the decode loop over the buffered bytes:
    /// `read_len` of them arrived since the last step. Emits the next
    /// action `drain_one` assigns to the accepted bytes, `Nothing`
    /// while a frame is still incomplete.
    pub fn handle_read(&mut self, read_len: usize) -> (action: ClientAction)
        requires
            old(self).wf(),
            old(self).state_count() + read_len == old(self).buffered().len(),
        ensures
            final(self).steady(),
            final(self).spec_queue() == old(self).spec_queue(),
            final(self).spec_offset() == old(self).spec_offset(),
            final(self).spec_token() == old(self).spec_token(),
            final(self).residue().len() <= old(self).residue().len(),
            final(self).spec_free() >= old(self).spec_free(),
            match drain_one(old(self).residue()) {
                None => action is Nothing && final(self).residue() == old(self).residue(),
                Some(step) => action.spec_action() == Some(step.0) && (step.0 is Reject
                    || final(self).residue() == step.1),
            },
    {
        proof {
            assert(old(self).buffer.free_len() + old(self).buffer.pending().len()
                <= MAX_PACKET_SIZE as int);
        }
        let mut state: ReadState = ReadState::Header(0);
        core::mem::swap(&mut state, &mut self.read_state);
        match state {
            ReadState::Header(in_buffer) => {
                let readable_bytes: usize = in_buffer + read_len;
                if readable_bytes == 0 {
                    self.read_state = ReadState::Header(0);
                    return ClientAction::Nothing;
                }
                let ghost data = self.buffer.pending();
                proof {
                    assert(data.subrange(0, readable_bytes as int) =~= data);
                }
                let parse_result = parse(self.buffer.read_bytes(readable_bytes));
                match parse_result {
                    ParseResult::Completed(msg_header, header_len, payload_len) => {
                        proof {
                            lemma_spec_parse_bounds(data);
                            decode_utf8_encode_utf8(data.subrange(2, 2 + data[1] as int));
                        }
                        self.buffer.consume(header_len);
                        let remaining_in_buffer: usize = readable_bytes - header_len;
                        let ghost mt = msg_header.message_type;
                        let ghost name = msg_header.event_name@;
                        match self.on_header(msg_header, remaining_in_buffer, payload_len) {
                            Some(action) => {
                                self.on_packet_complete();
                                proof {
                                    let hl = spec_parse(data).done_header_len();
                                    let pl = spec_parse(data).done_payload_len();
                                    if mt == MessageType::Publish {
                                        assert(data.skip(hl).subrange(0, pl) =~= data.subrange(
                                            hl,
                                            hl + pl,
                                        ));
                                        assert(data.skip(hl).skip(pl) =~= data.skip(hl + pl));
                                    }
                                }
                                action
                            },
                            None => {
                                proof {
                                    lemma_publish_header_reencode(data);
                                    assert(final(self).residue() =~= data);
                                }
                                ClientAction::Nothing
                            },
                        }
                    },
                    ParseResult::Incomplete => {
                        self.read_state = ReadState::Header(readable_bytes);
                        ClientAction::Nothing
                    },
                    ParseResult::Error => {
                        self.on_packet_complete();
                        ClientAction::Error
                    },
                }
            },
            ReadState::Payload(header, in_buffer, payload_len) => {
                let ghost tail = self.buffer.pending();
                proof {
                    lemma_parse_publish_header(header.event_name@, payload_len as int, tail);
                }
                let ghost hb = publish_header_bytes(header.event_name@, payload_len as int);
                if in_buffer + read_len >= payload_len {
                    let payload: Vec<u8> = slice_to_vec(self.buffer.read_bytes(payload_len));
                    self.buffer.consume(payload_len);
                    self.on_packet_complete();
                    proof {
                        assert((hb + tail).subrange(
                            hb.len() as int,
                            hb.len() + payload_len as int,
                        ) =~= tail.subrange(0, payload_len as int));
                        assert((hb + tail).skip(hb.len() + payload_len as int) =~= tail.skip(
                            payload_len as int,
                        ));
                    }
                    ClientAction::Publish(header.event_name, payload)
                } else {
                    self.read_state = ReadState::Payload(header, in_buffer + read_len, payload_len);
                    ClientAction::Nothing
                }
            },
        }
    }

    /// Accept freshly read bytes and run one decode step over them.
    pub fn read(&mut self, data: &[u8]) -> (action: ClientAction)
        requires
            old(self).steady(),
            data@.len() <= old(self).spec_free(),
        ensures
            final(self).steady(),
            final(self).spec_queue() == old(self).spec_queue(),
            final(self).spec_offset() == old(self).spec_offset(),
            final(self).spec_token() == old(self).spec_token(),
            final(self).residue().len() <= old(self).residue().len() + data@.len(),
            final(self).spec_free() >= old(self).spec_free() - data@.len(),
            match drain_one(old(self).residue() + data@) {
                None => action is Nothing && final(self).residue() == old(self).residue() + data@,
                Some(step) => action.spec_action() == Some(step.0) && (step.0 is Reject
                    || final(self).residue() == step.1),
            },
    {
        self.buffer.append(data);
        proof {
            assert(self.residue() =~= old(self).residue() + data@);
        }
        self.handle_read(data.len())
    }


    /// Accept freshly read bytes and run the decode loop to
    /// exhaustion: the emitted actions are exactly what `drain`
    /// assigns to the accepted bytes, in order, and unless a fatal
    /// frame ended the run, the bytes left unanswered are exactly
    /// what `drain` leaves.
    pub fn read_actions(&mut self, data: &[u8]) -> (r: Vec<ClientAction>)
        requires
            old(self).steady(),
            data@.len() <= old(self).spec_free(),
        ensures
            final(self).steady(),
            final(self).spec_queue() == old(self).spec_queue(),
            final(self).spec_offset() == old(self).spec_offset(),
            final(self).spec_token() == old(self).spec_token(),
            final(self).spec_free() >= old(self).spec_free() - data@.len(),
            ({
                let d = drain(old(self).residue() + data@);
                &&& r@.len() == d.0.len()
                &&& forall|i: int|
                    0 <= i < r@.len() ==> (#[trigger] r@[i]).spec_action() == Some(d.0[i])
                &&& (!d.0.contains(SpecAction::Reject) ==> final(self).residue() == d.1)
            }),
    {
        let ghost r_init = old(self).residue() + data@;
        let ghost d = drain(r_init);
        let mut out: Vec<ClientAction> = Vec::new();
        let mut failed: bool = false;
        let mut action: ClientAction = self.read(data);
        proof {
            if drain_one(r_init) matches Some(step) && !(step.0 is Reject) {
                crate::parser::lemma_spec_parse_bounds(r_init);
            }
        }
        loop
            invariant_except_break
                !failed,
                action is Nothing ==> (d.0.len() == out@.len() && self.residue() == d.1),
                action is Error ==> (d.0.len() == out@.len() + 1 && d.0[out@.len() as int]
                    == SpecAction::Reject),
                !(action is Nothing) && !(action is Error) ==> ({
                    &&& action.spec_action() matches Some(a) && a == d.0[out@.len() as int]
                    &&& d.0.len() > out@.len()
                    &&& drain(self.residue()).0 == d.0.skip(out@.len() as int + 1)
                    &&& drain(self.residue()).1 == d.1
                }),
            invariant
                self.steady(),
                self.spec_queue() == old(self).spec_queue(),
                self.spec_offset() == old(self).spec_offset(),
                self.spec_token() == old(self).spec_token(),
                self.spec_free() >= old(self).spec_free() - data@.len(),
                d == drain(r_init),
                forall|i: int|
                    0 <= i < out@.len() ==> (#[trigger] out@[i]).spec_action() == Some(d.0[i]),
            ensures
                self.steady(),
                self.spec_queue() == old(self).spec_queue(),
                self.spec_offset() == old(self).spec_offset(),
                self.spec_token() == old(self).spec_token(),
                self.spec_free() >= old(self).spec_free() - data@.len(),
                forall|i: int|
                    0 <= i < out@.len() ==> (#[trigger] out@[i]).spec_action() == Some(d.0[i]),
                failed ==> (d.0.len() == out@.len() + 1 && d.0[out@.len() as int]
                    == SpecAction::Reject),
                !failed ==> (d.0.len() == out@.len() && self.residue() == d.1),
            decreases self.residue().len() + (if (action is Nothing || action is Error) {
                0int
            } else {
                1int
            }),
        {
            match action {
                ClientAction::Nothing => {
                    break ;
                },
                ClientAction::Error => {
                    failed = true;
                    break ;
                },
                other => {
                    let ghost cur = self.residue();
                    let ghost k = out@.len() as int;
                    proof {
                        assert(drain(cur).0 == d.0.skip(k + 1));
                        assert(drain(cur).1 == d.1);
                        if spec_parse(cur) is Done {
                            lemma_spec_parse_bounds(cur);
                        }
                    }
                    out.push(other);
                    action = self.handle_read(0);
                    proof {
                        match drain_one(cur) {
                            None => {
                                assert(drain(cur).0 =~= Seq::<SpecAction>::empty());
                                assert(d.0.skip(k + 1).len() == 0);
                                assert(d.0.len() == k + 1);
                                assert(self.residue() == cur);
                                assert(d.1 == cur);
                            },
                            Some(step) => {
                                if step.0 is Reject {
                                    assert(drain(cur).0 == seq![step.0]);
                                    assert(d.0.skip(k + 1).len() == 1);
                                    assert(d.0.len() == k + 2);
                                    assert(d.0.skip(k + 1)[0] == step.0);
                                    assert(d.0[k + 1] == SpecAction::Reject);
                                } else {
                                    assert(drain(cur).0 == seq![step.0] + drain(step.1).0);
                                    assert(d.0.skip(k + 1)[0] == step.0);
                                    assert(d.0[k + 1] == step.0);
                                    assert(drain(step.1).0 =~= d.0.skip(k + 2)) by {
                                        assert forall|j: int|
                                            0 <= j < drain(step.1).0.len() implies drain(
                                            step.1,
                                        ).0[j] == d.0[k + 2 + j] by {
                                            assert(drain(cur).0[j + 1] == drain(step.1).0[j]);
                                            assert(d.0.skip(k + 1)[j + 1] == d.0[k + 2 + j]);
                                        }
                                    }
                                    assert(drain(step.1).1 == d.1);
                                    assert(self.residue() == step.1);
                                }
                            },
                        }
                    }
                },
            }
        }
        if failed {
            out.push(ClientAction::Error);
            proof {
                assert(d.0.contains(SpecAction::Reject)) by {
                    assert(d.0[out@.len() - 1] == SpecAction::Reject);
                }
            }
        }
        out
    }

    /// Queue one encoded event for transmission on this connection.
    pub fn publish(&mut self, event_id: EventId)
        requires
            old(self).steady(),
        ensures
            final(self).steady(),
            final(self).spec_queue() == old(self).spec_queue().push(event_id),
            final(self).spec_offset() == old(self).spec_offset(),
            final(self).spec_token() == old(self).spec_token(),
            final(self).residue() == old(self).residue(),
            final(self).spec_free() == old(self).spec_free(),
    {
        self.write_queue.add_event(event_id);
    }

    /// The bytes of the head event still to be written, from the
    /// current offset on.
    pub fn writable_data<'a>(&self, pending_events: &'a PendingEvents) -> (r: Option<&'a [u8]>)
        requires
            pending_events.wf(),
            self.spec_queue().len() > 0,
            pending_events@.contains_key(self.spec_queue()[0]) ==> self.spec_offset()
                <= pending_events@[self.spec_queue()[0]].data.len(),
        ensures
            r is Some <==> pending_events@.contains_key(self.spec_queue()[0]),
            r matches Some(d) ==> d@ == pending_events@[self.spec_queue()[0]].data.skip(
                self.spec_offset(),
            ),
    {
        match pending_events.get_event_data(self.write_queue.current_event_id()) {
            Some(data) => Some(slice_subrange(data, self.write_queue.write_offset(), data.len())),
            None => None,
        }
    }

    /// Account for `written` bytes of the head event having gone out;
    /// when that drains it, drop it from the queue and release it in
    /// the table. Fails only on an id the table does not know.
    pub fn write(&mut self, pending_events: &mut PendingEvents, written: usize) -> (r: Result<
        (),
        (),
    >)
        requires
            old(self).steady(),
            old(pending_events).wf(),
            old(self).spec_queue().len() > 0,
            old(pending_events)@.contains_key(old(self).spec_queue()[0]) ==> old(
                self,
            ).spec_offset() + written <= old(pending_events)@[old(self).spec_queue()[0]].data.len(),
        ensures
            final(self).steady(),
            final(pending_events).wf(),
            final(self).residue() == old(self).residue(),
            final(self).spec_token() == old(self).spec_token(),
            final(pending_events).spec_id_counter() == old(pending_events).spec_id_counter(),
            ({
                let head = old(self).spec_queue()[0];
                let table = old(pending_events)@;
                if !table.contains_key(head) {
                    &&& r is Err
                    &&& final(self).spec_queue() == old(self).spec_queue()
                    &&& final(self).spec_offset() == old(self).spec_offset()
                    &&& final(pending_events)@ == table
                } else {
                    if old(self).spec_offset() + written < table[head].data.len() {
                        &&& r is Ok
                        &&& final(self).spec_queue() == old(self).spec_queue()
                        &&& final(self).spec_offset() == old(self).spec_offset() + written
                        &&& final(pending_events)@ == table
                    } else {
                        &&& r is Ok
                        &&& final(self).spec_queue() == old(self).spec_queue().skip(1)
                        &&& final(self).spec_offset() == 0
                        &&& final(pending_events)@ == release_one(table, head)
                    }
                }
            }),
    {
        let data_len: usize = match pending_events.get_event_data(
            self.write_queue.current_event_id(),
        ) {
            Some(data) => data.len(),
            None => {
                return Err(());
            },
        };
        self.write_queue.advance(written);
        if self.write_queue.write_offset() >= data_len {
            self.finish_event(pending_events);
        }
        Ok(())
    }

    /// Drop the head event from the queue and count this connection
    /// off in the table.
    fn finish_event(&mut self, pending_events: &mut PendingEvents)
        requires
            old(self).spec_queue().len() > 0,
            old(pending_events).wf(),
        ensures
            final(pending_events).wf(),
            final(pending_events).spec_id_counter() == old(pending_events).spec_id_counter(),
            final(self).spec_queue() == old(self).spec_queue().skip(1),
            final(self).spec_offset() == 0,
            final(self).buffer == old(self).buffer,
            final(self).read_state == old(self).read_state,
            final(self).token == old(self).token,
            final(pending_events)@ == release_one(
                old(pending_events)@,
                old(self).spec_queue()[0],
            ),
    {
        let event_id: EventId = self.write_queue.finish_current_event();
        let ghost table = pending_events@;
        proof {
            if pending_events@.contains_key(event_id) {
                pending_events.lemma_live_events_have_recipients(event_id);
            }
        }
        pending_events.finish_event(event_id);
        proof {
            if !table.contains_key(event_id) {
                assert(pending_events@ =~= table);
            } else if table[event_id].remaining > 1 {
                assert(pending_events@ =~= table.insert(
                    event_id,
                    EventInfo {
                        data: table[event_id].data,
                        remaining: (table[event_id].remaining - 1) as nat,
                    },
                ));
            } else {
                assert(pending_events@ =~= table.remove(event_id));
            }
            assert(pending_events@ =~= release_one(table, event_id));
        }
    }

    /// On close: release every event still queued here, so the
    /// table's recipient counts stay exact.
    pub fn clear_events(&mut self, pending_events: &mut PendingEvents)
        requires
            old(pending_events).wf(),
        ensures
            final(pending_events).wf(),
            final(pending_events).spec_id_counter() == old(pending_events).spec_id_counter(),
            final(self).spec_queue() == Seq::<EventId>::empty(),
            final(self).spec_offset() == 0 || old(self).spec_queue().len() == 0,
            final(self).residue() == old(self).residue(),
            final(self).buffered() == old(self).buffered(),
            final(self).state_count() == old(self).state_count(),
            final(self).spec_free() == old(self).spec_free(),
            final(self).spec_token() == old(self).spec_token(),
            old(self).wf() ==> final(self).wf(),
            final(pending_events)@ == release_all(old(pending_events)@, old(self).spec_queue()),
    {
        while self.write_queue.has_events_pending()
            invariant
                pending_events.wf(),
                pending_events.spec_id_counter() == old(pending_events).spec_id_counter(),
                self.buffer == old(self).buffer,
                self.read_state == old(self).read_state,
                self.token == old(self).token,
                (self.write_queue == old(self).write_queue) || self.spec_offset() == 0,
                release_all(pending_events@, self.spec_queue()) == release_all(
                    old(pending_events)@,
                    old(self).spec_queue(),
                ),
            decreases self.spec_queue().len(),
        {
            self.finish_event(pending_events);
        }
    }
}


/// The connection's whole decode loop over a byte stream: every
/// action it emits before stalling on an incomplete frame (a fatal
/// frame ends the run), and the bytes left unanswered.
pub open spec fn drain(bytes: Seq<u8>) -> (Seq<SpecAction>, Seq<u8>)
    decreases bytes.len(),
{
    match drain_one(bytes) {
        None => (Seq::<SpecAction>::empty(), bytes),
        Some(step) => if step.0 is Reject {
            (seq![step.0], step.1)
        } else {
            let rec = drain(step.1);
            (seq![step.0] + rec.0, rec.1)
        },
    }
}

/// Later bytes change nothing about an already-complete frame: one
/// decode step commutes with appending input.
pub proof fn lemma_drain_one_extension(x: Seq<u8>, y: Seq<u8>)
    requires
        drain_one(x) matches Some(step) && !(step.0 is Reject),
    ensures
        drain_one(x + y) matches Some(step2) && drain_one(x) matches Some(step) && step2.0
            == step.0 && step2.1 == step.1 + y,
{
    crate::parser::lemma_parse_extension(x, y);
    crate::parser::lemma_spec_parse_bounds(x);
    let p = spec_parse(x);
    let hl = p.done_header_len();
    let pl = p.done_payload_len();
    match p.done_type() {
        MessageType::Subscribe | MessageType::Unsubscribe => {
            assert((x + y).skip(hl) =~= x.skip(hl) + y);
        },
        MessageType::Publish => {
            assert(x.len() >= hl + pl);
            assert((x + y).subrange(hl, hl + pl) =~= x.subrange(hl, hl + pl));
            assert((x + y).skip(hl + pl) =~= x.skip(hl + pl) + y);
        },
        MessageType::Event => {},
    }
}

/// Splitting a byte stream anywhere never changes what the decode
/// loop emits: feeding `x` and then `y` produces the same actions as
/// feeding `x + y` at once, as long as `x` alone produced no fatal
/// frame.
pub proof fn lemma_drain_append(x: Seq<u8>, y: Seq<u8>)
    requires
        !drain(x).0.contains(SpecAction::Reject),
    ensures
        drain(x + y).0 == drain(x).0 + drain(drain(x).1 + y).0,
        drain(x + y).1 == drain(drain(x).1 + y).1,
    decreases x.len(),
{
    match drain_one(x) {
        None => {
            assert(drain(x).0 =~= Seq::<SpecAction>::empty());
            assert(drain(x).1 == x);
            assert(drain(x).0 + drain(x + y).0 =~= drain(x + y).0);
        },
        Some(step) => {
            assert(!(step.0 is Reject)) by {
                if step.0 is Reject {
                    assert(drain(x).0[0] == step.0);
                    assert(drain(x).0.contains(step.0));
                }
            }
            crate::parser::lemma_spec_parse_bounds(x);
            lemma_drain_one_extension(x, y);
            assert(!drain(step.1).0.contains(SpecAction::Reject)) by {
                if drain(step.1).0.contains(SpecAction::Reject) {
                    let i = choose|i: int|
                        0 <= i < drain(step.1).0.len() && drain(step.1).0[i]
                            == SpecAction::Reject;
                    assert(drain(x).0[i + 1] == SpecAction::Reject);
                    assert(drain(x).0.contains(SpecAction::Reject));
                }
            }
            lemma_drain_append(step.1, y);
            assert(drain(x + y).0 =~= drain(x).0 + drain(drain(x).1 + y).0);
        },
    }
}


/// A fatal action ends the decode loop: if `drain` emits a `Reject`,
/// it is the last action it emits.
pub proof fn lemma_drain_reject_last(bytes: Seq<u8>)
    ensures
        forall|i: int|
            0 <= i < drain(bytes).0.len() && drain(bytes).0[i] == SpecAction::Reject ==> i
                == drain(bytes).0.len() - 1,
    decreases bytes.len(),
{
    match drain_one(bytes) {
        None => {},
        Some(step) => {
            if !(step.0 is Reject) {
                crate::parser::lemma_spec_parse_bounds(bytes);
                lemma_drain_reject_last(step.1);
                assert forall|i: int|
                    0 <= i < drain(bytes).0.len() && drain(bytes).0[i] == SpecAction::Reject
                        implies i == drain(bytes).0.len() - 1 by {
                    assert(drain(bytes).0[0] == step.0);
                    if i > 0 {
                        assert(drain(bytes).0[i] == drain(step.1).0[i - 1]);
                    }
                }
            }
        },
    }
}

/// The action one client frame asks for.
pub open spec fn action_of(m: crate::message::Message) -> SpecAction {
    match m.header.message_type {
        MessageType::Subscribe => SpecAction::Subscribe(m.header.event_name@),
        MessageType::Unsubscribe => SpecAction::Unsubscribe(m.header.event_name@),
        MessageType::Publish => SpecAction::Publish(
            m.header.event_name@,
            match m.payload {
                Some(p) => p@,
                None => Seq::<u8>::empty(),
            },
        ),
        MessageType::Event => SpecAction::Reject,
    }
}

/// The byte stream that concatenates a sequence of frames.
pub open spec fn frames_bytes(ms: Seq<crate::message::Message>) -> Seq<u8>
    decreases ms.len(),
{
    if ms.len() == 0 {
        Seq::<u8>::empty()
    } else {
        ms[0].spec_bytes() + frames_bytes(ms.skip(1))
    }
}

/// A stream of N well-formed client frames decodes to exactly N
/// actions, in order, with nothing left over. Together with
/// `lemma_drain_append` this holds however the stream is split
/// across reads.
pub proof fn lemma_drain_frames(ms: Seq<crate::message::Message>)
    requires
        forall|i: int|
            0 <= i < ms.len() ==> ((#[trigger] ms[i]).wf() && ms[i].header.message_type
                != MessageType::Event),
    ensures
        drain(frames_bytes(ms)).0 == Seq::new(ms.len(), |i: int| action_of(ms[i])),
        drain(frames_bytes(ms)).1 == Seq::<u8>::empty(),
    decreases ms.len(),
{
    if ms.len() == 0 {
        assert(drain(frames_bytes(ms)).0 =~= Seq::new(ms.len(), |i: int| action_of(ms[i])));
    } else {
        let m = ms[0];
        let bytes = m.spec_bytes();
        let rest = frames_bytes(ms.skip(1));
        crate::parser::lemma_parse_round_trip(m);
        crate::parser::lemma_parse_extension(bytes, rest);
        crate::parser::lemma_spec_parse_bounds(bytes);
        let p = spec_parse(bytes);
        let hl = p.done_header_len();
        let pl = p.done_payload_len();
        let whole = bytes + rest;
        match m.header.message_type {
            MessageType::Subscribe | MessageType::Unsubscribe => {
                assert(whole.skip(hl) =~= rest);
            },
            MessageType::Publish => {
                assert(whole.len() >= hl + pl);
                assert(whole.subrange(hl, hl + pl) =~= bytes.subrange(hl, hl + pl));
                assert(whole.skip(hl + pl) =~= rest);
                assert(bytes.subrange(hl, bytes.len() as int) == m.payload->0@);
                assert(bytes.subrange(hl, hl + pl) =~= bytes.subrange(hl, bytes.len() as int));
            },
            MessageType::Event => {},
        }
        assert forall|i: int| 0 <= i < ms.skip(1).len() implies ((#[trigger] ms.skip(1)[i]).wf()
            && ms.skip(1)[i].header.message_type != MessageType::Event) by {
            assert(ms.skip(1)[i] == ms[i + 1]);
        }
        lemma_drain_frames(ms.skip(1));
        assert(drain(whole).0 =~= Seq::new(ms.len(), |i: int| action_of(ms[i]))) by {
            assert(drain(whole).0 == seq![action_of(m)] + drain(rest).0);
            assert forall|i: int| 0 <= i < ms.len() implies drain(whole).0[i] == action_of(
                ms[i],
            ) by {
                if i > 0 {
                    assert(drain(rest).0[i - 1] == action_of(ms.skip(1)[i - 1]));
                    assert(ms.skip(1)[i - 1] == ms[i]);
                }
            }
        }
    }
}

} // verus!
