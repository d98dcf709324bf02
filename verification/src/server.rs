//! The broker core: the connection slab, the subscription map, and
//! the pending-event table, with the dispatch logic that ties them
//! together.
//!
//! The central invariant is reference-count exactness: for every live
//! event, its remaining-recipient count equals the number of times its
//! id sits in the connections' write queues. Publishing establishes
//! it, draining and closing preserve it, and an event is freed exactly
//! when its last occurrence leaves a queue.

use vstd::prelude::*;
use vstd::utf8::encode_utf8;

use crate::client::{PubsubClient, ClientAction, SpecAction, drain, lemma_drain_reject_last};
use crate::message::{Message, MessageType, MessageBuilder};
use crate::pending_event::{EventId, EventInfo, PendingEvents, release_all, release_one};
use crate::subscriptions::{SubscriptionMap, spec_subscribe, spec_unsubscribe, remove_conn,
    lemma_remove_conn};

verus! {

/// How many connections the slab accepts.
pub const MAX_CONNECTIONS: usize = 128;

/// How often an event id occurs in one write queue.
pub open spec fn count_in(q: Seq<EventId>, id: EventId) -> nat
    decreases q.len(),
{
    if q.len() == 0 {
        0
    } else {
        count_in(q.drop_last(), id) + (if q.last() == id {
            1nat
        } else {
            0nat
        })
    }
}

/// The write queue sitting in one slab slot; an empty one for a free
/// slot.
pub open spec fn queue_at(conns: Seq<Option<PubsubClient>>, i: int) -> Seq<EventId> {
    if 0 <= i < conns.len() {
        match conns[i] {
            Some(c) => c.spec_queue(),
            None => Seq::<EventId>::empty(),
        }
    } else {
        Seq::<EventId>::empty()
    }
}

/// How often an event id occurs across the first `upto` slots.
pub open spec fn total_count(conns: Seq<Option<PubsubClient>>, id: EventId, upto: int) -> nat
    decreases upto,
{
    if upto <= 0 {
        0
    } else {
        total_count(conns, id, upto - 1) + count_in(queue_at(conns, upto - 1), id)
    }
}

/// Appending one id to a queue raises its count by one and leaves
/// every other id's count alone.
pub proof fn lemma_count_push(q: Seq<EventId>, x: EventId, id: EventId)
    ensures
        count_in(q.push(x), id) == count_in(q, id) + (if x == id {
            1nat
        } else {
            0nat
        }),
{
    assert(q.push(x).drop_last() =~= q);
}

/// Counting from the front: the head plus the count of the rest.
pub proof fn lemma_count_skip1(q: Seq<EventId>, id: EventId)
    requires
        q.len() > 0,
    ensures
        count_in(q, id) == count_in(q.skip(1), id) + (if q[0] == id {
            1nat
        } else {
            0nat
        }),
    decreases q.len(),
{
    if q.len() == 1 {
        assert(q.skip(1) =~= Seq::<EventId>::empty());
        assert(q.drop_last() =~= Seq::<EventId>::empty());
    } else {
        assert(q.drop_last().skip(1) =~= q.skip(1).drop_last());
        assert(q.drop_last()[0] == q[0]);
        assert(q.skip(1).last() == q.last());
        lemma_count_skip1(q.drop_last(), id);
    }
}

/// An id occurs in a queue exactly when its count is positive.
pub proof fn lemma_count_contains(q: Seq<EventId>, id: EventId)
    ensures
        q.contains(id) <==> count_in(q, id) >= 1,
    decreases q.len(),
{
    if q.len() > 0 {
        lemma_count_contains(q.drop_last(), id);
        if q.contains(id) && q.last() != id {
            let i = choose|i: int| 0 <= i < q.len() && q[i] == id;
            assert(q.drop_last()[i] == id);
        }
        if q.drop_last().contains(id) {
            let i = choose|i: int| 0 <= i < q.drop_last().len() && q.drop_last()[i] == id;
            assert(q[i] == id);
        }
    }
}

/// Slot-for-slot equal queues give equal totals.
pub proof fn lemma_total_count_ext(
    a: Seq<Option<PubsubClient>>,
    b: Seq<Option<PubsubClient>>,
    id: EventId,
    upto: int,
)
    requires
        forall|i: int| 0 <= i < upto ==> queue_at(a, i) == queue_at(b, i),
    ensures
        total_count(a, id, upto) == total_count(b, id, upto),
    decreases upto,
{
    if upto > 0 {
        lemma_total_count_ext(a, b, id, upto - 1);
    }
}

/// Replacing one slot shifts the total by the difference at that slot.
pub proof fn lemma_total_count_update(
    a: Seq<Option<PubsubClient>>,
    b: Seq<Option<PubsubClient>>,
    slot: int,
    id: EventId,
    upto: int,
)
    requires
        0 <= slot < upto,
        a.len() == b.len(),
        forall|i: int| 0 <= i < upto && i != slot ==> queue_at(a, i) == queue_at(b, i),
    ensures
        total_count(b, id, upto) + count_in(queue_at(a, slot), id) == total_count(a, id, upto)
            + count_in(queue_at(b, slot), id),
    decreases upto,
{
    if slot == upto - 1 {
        lemma_total_count_ext(a, b, id, upto - 1);
    } else {
        lemma_total_count_update(a, b, slot, id, upto - 1);
    }
}

/// One slot's count never exceeds the total over the slots covering it.
pub proof fn lemma_total_count_bound(
    conns: Seq<Option<PubsubClient>>,
    id: EventId,
    i: int,
    upto: int,
)
    requires
        0 <= i < upto,
    ensures
        count_in(queue_at(conns, i), id) <= total_count(conns, id, upto),
    decreases upto,
{
    if i < upto - 1 {
        lemma_total_count_bound(conns, id, i, upto - 1);
    }
}

/// A fresh id that no queue holds has total count zero, and the other
/// direction: a zero total means no slot's queue holds the id.
pub proof fn lemma_total_count_zero(conns: Seq<Option<PubsubClient>>, id: EventId, upto: int)
    requires
        forall|i: int| 0 <= i < upto ==> !queue_at(conns, i).contains(id),
    ensures
        total_count(conns, id, upto) == 0,
    decreases upto,
{
    if upto > 0 {
        lemma_total_count_zero(conns, id, upto - 1);
        lemma_count_contains(queue_at(conns, upto - 1), id);
    }
}

/// What releasing a whole queue does to the table: each id's
/// remaining count drops by its number of occurrences, and the entry
/// disappears exactly when that uses it up.
pub proof fn lemma_release_all(m: Map<EventId, EventInfo>, q: Seq<EventId>)
    requires
        forall|id: EventId| #[trigger] m.contains_key(id) ==> m[id].remaining >= 1,
        forall|id: EventId| #[trigger]
            m.contains_key(id) ==> count_in(q, id) <= m[id].remaining,
        forall|id: EventId| !m.contains_key(id) ==> count_in(q, id) == 0,
    ensures
        forall|id: EventId| #[trigger]
            release_all(m, q).contains_key(id) <==> (m.contains_key(id) && m[id].remaining
                > count_in(q, id)),
        forall|id: EventId| #[trigger]
            release_all(m, q).contains_key(id) ==> release_all(m, q)[id] == (EventInfo {
                data: m[id].data,
                remaining: (m[id].remaining - count_in(q, id)) as nat,
            }),
    decreases q.len(),
{
    if q.len() > 0 {
        let head = q[0];
        let m1 = release_one(m, head);
        assert forall|id: EventId| #[trigger] m.contains_key(id) implies count_in(q.skip(1), id)
            <= count_in(q, id) by {
            lemma_count_skip1(q, id);
        }
        assert(m.contains_key(head) && m[head].remaining >= 1) by {
            lemma_count_skip1(q, head);
            if !m.contains_key(head) {
                assert(count_in(q, head) == 0);
            }
        }
        assert forall|id: EventId| #[trigger] m1.contains_key(id) implies (m1[id].remaining >= 1
            && count_in(q.skip(1), id) <= m1[id].remaining) by {
            lemma_count_skip1(q, id);
        }
        assert forall|id: EventId| !m1.contains_key(id) implies count_in(q.skip(1), id) == 0 by {
            lemma_count_skip1(q, id);
            if m.contains_key(id) {
                assert(id == head && m[head].remaining == 1);
                assert(count_in(q, id) <= 1);
            }
        }
        lemma_release_all(m1, q.skip(1));
        assert(release_all(m, q) == release_all(m1, q.skip(1)));
        assert forall|id: EventId|
            #[trigger] release_all(m, q).contains_key(id) <==> (m.contains_key(id)
                && m[id].remaining > count_in(q, id)) by {
            lemma_count_skip1(q, id);
            assert(release_all(m1, q.skip(1)).contains_key(id) <==> (m1.contains_key(id)
                && m1[id].remaining > count_in(q.skip(1), id)));
            if id == head {
                if m[head].remaining > 1 {
                    assert(m1.contains_key(head) && m1[head].remaining == m[head].remaining - 1);
                } else {
                    assert(!m1.contains_key(head));
                    assert(count_in(q, head) >= 1);
                }
            } else {
                assert(m1.contains_key(id) == m.contains_key(id));
                assert(m1.contains_key(id) ==> m1[id] == m[id]);
                assert(count_in(q.skip(1), id) == count_in(q, id));
            }
        }
        assert forall|id: EventId| #[trigger] release_all(m, q).contains_key(id) implies
            release_all(m, q)[id] == (EventInfo {
                data: m[id].data,
                remaining: (m[id].remaining - count_in(q, id)) as nat,
            }) by {
            lemma_count_skip1(q, id);
            assert(release_all(m1, q.skip(1)).contains_key(id));
            assert(release_all(m1, q.skip(1))[id] == (EventInfo {
                data: m1[id].data,
                remaining: (m1[id].remaining - count_in(q.skip(1), id)) as nat,
            }));
            if id == head {
                assert(m1.contains_key(head));
                assert(m[head].remaining > 1);
                assert(m1[head] == (EventInfo {
                    data: m[head].data,
                    remaining: (m[head].remaining - 1) as nat,
                }));
            } else {
                assert(m1[id] == m[id]);
                assert(count_in(q.skip(1), id) == count_in(q, id));
            }
        }
    }
}


/// A publish to `topic` with `payload` goes through when the topic
/// has subscribers, both fields fit the wire format, and the id space
/// is not exhausted.
pub open spec fn spec_can_publish(pre: PubsubServer, topic: Seq<char>, payload: Seq<u8>) -> bool {
    &&& pre.spec_subs().contains_key(topic)
    &&& encode_utf8(topic).len() <= 255
    &&& payload.len() <= 65535
    &&& pre.spec_counter() != EventId::MAX
}

/// What a publish does to the broker: when it goes through, one
/// encoded Event frame is stored under the next id with the
/// subscriber count, and that id is pushed onto exactly the
/// subscribers' queues (the publisher included if subscribed);
/// otherwise nothing changes. The subscription map never changes.
pub open spec fn publish_effect(
    pre: PubsubServer,
    post: PubsubServer,
    topic: Seq<char>,
    payload: Seq<u8>,
) -> bool {
    &&& post.spec_subs() == pre.spec_subs()
    &&& post.spec_conns().len() == pre.spec_conns().len()
    &&& if spec_can_publish(pre, topic, payload) {
        let id = pre.spec_counter();
        let subs = pre.spec_subs()[topic];
        &&& !pre.spec_pending().contains_key(id)
        &&& post.spec_counter() == id + 1
        &&& post.spec_pending() == pre.spec_pending().insert(
            id,
            EventInfo {
                data: PubsubServer::event_bytes(topic, payload),
                remaining: subs.len() as nat,
            },
        )
        &&& forall|i: int|
            0 <= i < pre.spec_conns().len() ==> {
                &&& (post.live(i) <==> pre.live(i))
                &&& (pre.live(i) ==> {
                    &&& (#[trigger] post.conn(i)).spec_token() == pre.conn(i).spec_token()
                    &&& post.conn(i).residue() == pre.conn(i).residue()
                    &&& post.conn(i).spec_offset() == pre.conn(i).spec_offset()
                    &&& post.conn(i).spec_free() == pre.conn(i).spec_free()
                    &&& post.queue(i) == (if subs.contains(i as usize) {
                        pre.queue(i).push(id)
                    } else {
                        pre.queue(i)
                    })
                })
            }
    } else {
        &&& post.spec_pending() == pre.spec_pending()
        &&& post.spec_conns() == pre.spec_conns()
        &&& post.spec_counter() == pre.spec_counter()
    }
}

/// What closing a connection does to the broker: its slot is freed,
/// every event it still had queued is released, and it leaves every
/// topic, emptied topics disappearing. Closing a dead slot changes
/// nothing (its queue is empty and no topic names it).
pub open spec fn close_effect(pre: PubsubServer, post: PubsubServer, token: int) -> bool {
    &&& post.spec_counter() == pre.spec_counter()
    &&& post.spec_conns().len() == pre.spec_conns().len()
    &&& !post.live(token)
    &&& forall|i: int|
        0 <= i < pre.spec_conns().len() && i != token ==> #[trigger] post.spec_conns()[i]
            == pre.spec_conns()[i]
    &&& post.spec_pending() == release_all(pre.spec_pending(), pre.queue(token))
    &&& forall|t: Seq<char>|
        #[trigger] post.spec_subs().contains_key(t) <==> (pre.spec_subs().contains_key(t)
            && remove_conn(pre.spec_subs()[t], token as usize).len() > 0)
    &&& forall|t: Seq<char>|
        post.spec_subs().contains_key(t) ==> #[trigger] post.spec_subs()[t] == remove_conn(
            pre.spec_subs()[t],
            token as usize,
        )
}

/// What routing one decoded action from connection `token` does to
/// the broker: the subscription map moves by `spec_subscribe` or
/// `spec_unsubscribe`, a publish has `publish_effect`, and a fatal
/// frame closes the connection.
pub open spec fn apply_effect(
    pre: PubsubServer,
    post: PubsubServer,
    token: int,
    a: SpecAction,
) -> bool {
    match a {
        SpecAction::Subscribe(t) => {
            &&& post.spec_subs() == spec_subscribe(pre.spec_subs(), t, token as usize)
            &&& post.spec_conns() == pre.spec_conns()
            &&& post.spec_pending() == pre.spec_pending()
            &&& post.spec_counter() == pre.spec_counter()
        },
        SpecAction::Unsubscribe(t) => {
            &&& post.spec_subs() == spec_unsubscribe(pre.spec_subs(), t, token as usize)
            &&& post.spec_conns() == pre.spec_conns()
            &&& post.spec_pending() == pre.spec_pending()
            &&& post.spec_counter() == pre.spec_counter()
        },
        SpecAction::Publish(t, p) => publish_effect(pre, post, t, p),
        SpecAction::Reject => close_effect(pre, post, token),
    }
}

/// The broker state `post` is `pre` after routing the actions in
/// `acts`, in order, all from connection `token`.
pub open spec fn routed(
    pre: PubsubServer,
    post: PubsubServer,
    token: int,
    acts: Seq<SpecAction>,
) -> bool
    decreases acts.len(),
{
    if acts.len() == 0 {
        post == pre
    } else {
        exists|mid: PubsubServer|
            #![trigger apply_effect(pre, mid, token, acts[0])]
            apply_effect(pre, mid, token, acts[0]) && routed(mid, post, token, acts.skip(1))
    }
}

/// Routing one more action extends a routed run at its end.
pub proof fn lemma_routed_snoc(
    pre: PubsubServer,
    mid: PubsubServer,
    post: PubsubServer,
    token: int,
    acts: Seq<SpecAction>,
    a: SpecAction,
)
    requires
        routed(pre, mid, token, acts),
        apply_effect(mid, post, token, a),
    ensures
        routed(pre, post, token, acts.push(a)),
    decreases acts.len(),
{
    let whole = acts.push(a);
    if acts.len() == 0 {
        assert(mid == pre);
        assert(whole[0] == a);
        assert(whole.skip(1) =~= Seq::<SpecAction>::empty());
        assert(apply_effect(pre, post, token, whole[0]));
        assert(routed(post, post, token, whole.skip(1)));
    } else {
        let m1 = choose|m1: PubsubServer|
            #![trigger apply_effect(pre, m1, token, acts[0])]
            apply_effect(pre, m1, token, acts[0]) && routed(m1, mid, token, acts.skip(1));
        lemma_routed_snoc(m1, mid, post, token, acts.skip(1), a);
        assert(whole[0] == acts[0]);
        assert(whole.skip(1) =~= acts.skip(1).push(a));
        assert(apply_effect(pre, m1, token, whole[0]));
        assert(routed(m1, post, token, whole.skip(1)));
    }
}

/// Taking bytes off a connection's wire changes only its decode
/// state: same tables, same queues, same everything in the other
/// slots.
pub open spec fn reads_decode_only(pre: PubsubServer, mid: PubsubServer, token: int) -> bool {
    &&& mid.wf()
    &&& mid.spec_subs() == pre.spec_subs()
    &&& mid.spec_pending() == pre.spec_pending()
    &&& mid.spec_counter() == pre.spec_counter()
    &&& mid.spec_conns().len() == pre.spec_conns().len()
    &&& forall|i: int|
        0 <= i < pre.spec_conns().len() && i != token ==> #[trigger] mid.spec_conns()[i]
            == pre.spec_conns()[i]
    &&& (mid.live(token) <==> pre.live(token))
    &&& (pre.live(token) ==> {
        &&& mid.conn(token).spec_queue() == pre.conn(token).spec_queue()
        &&& mid.conn(token).spec_offset() == pre.conn(token).spec_offset()
        &&& mid.conn(token).spec_token() == pre.conn(token).spec_token()
    })
}

/// The broker state: a slab of connections with stable indices, the
/// subscription map, and the pending-event table.
pub struct PubsubServer {
    connections: Vec<Option<PubsubClient>>,
    subscriptions: SubscriptionMap,
    pending_events: PendingEvents,
}

impl PubsubServer {
    pub closed spec fn spec_conns(&self) -> Seq<Option<PubsubClient>> {
        self.connections@
    }

    pub closed spec fn spec_subs(&self) -> Map<Seq<char>, Seq<usize>> {
        self.subscriptions@
    }

    pub closed spec fn spec_pending(&self) -> Map<EventId, EventInfo> {
        self.pending_events@
    }

    pub closed spec fn spec_counter(&self) -> EventId {
        self.pending_events.spec_id_counter()
    }

    /// Slot `i` holds a connection.
    pub open spec fn live(&self, i: int) -> bool {
        0 <= i < self.spec_conns().len() && self.spec_conns()[i] is Some
    }

    pub open spec fn conn(&self, i: int) -> PubsubClient
        recommends
            self.live(i),
    {
        self.spec_conns()[i]->0
    }

    pub open spec fn queue(&self, i: int) -> Seq<EventId> {
        queue_at(self.spec_conns(), i)
    }

    /// Reference-count exactness: every live event's remaining count
    /// equals the number of queue slots that still hold its id.
    pub open spec fn recipients_consistent(&self) -> bool {
        forall|id: EventId| #[trigger]
            self.spec_pending().contains_key(id) ==> self.spec_pending()[id].remaining
                == total_count(self.spec_conns(), id, self.spec_conns().len() as int)
    }

    /// Write queues hold only live event ids.
    pub open spec fn queues_live(&self) -> bool {
        forall|i: int, k: int|
            self.live(i) && 0 <= k < self.queue(i).len() ==> self.spec_pending().contains_key(
                #[trigger] self.queue(i)[k],
            )
    }

    /// The subscription map names only live connections.
    pub open spec fn subscribers_live(&self) -> bool {
        forall|t: Seq<char>, j: int|
            #![trigger self.spec_subs()[t][j]]
            self.spec_subs().contains_key(t) && 0 <= j < self.spec_subs()[t].len() ==> self.live(
                self.spec_subs()[t][j] as int,
            )
    }

    /// Each live connection is in its steady state, knows its own
    /// slot, and its write offset points inside the head event.
    pub open spec fn conns_ok(&self) -> bool {
        &&& self.spec_conns().len() <= MAX_CONNECTIONS
        &&& forall|i: int|
            #![trigger self.conn(i)]
            self.live(i) ==> {
                &&& self.conn(i).steady()
                &&& self.conn(i).spec_token() == i
                &&& (self.queue(i).len() > 0 ==> self.conn(i).spec_offset()
                    <= self.spec_pending()[self.queue(i)[0]].data.len())
                &&& (self.queue(i).len() == 0 ==> self.conn(i).spec_offset() == 0)
            }
    }

    pub closed spec fn wf(&self) -> bool {
        &&& self.subscriptions.wf()
        &&& self.pending_events.wf()
        &&& self.conns_ok()
        &&& self.queues_live()
        &&& self.subscribers_live()
        &&& self.recipients_consistent()
    }

    /// The broker invariant carries the table invariants: exact
    /// recipient counts, only-live bookkeeping, and no topic without
    /// subscribers.
    pub proof fn lemma_wf_consequences(&self)
        requires
            self.wf(),
        ensures
            self.recipients_consistent(),
            self.queues_live(),
            self.subscribers_live(),
            self.conns_ok(),
            forall|t: Seq<char>| #[trigger]
                self.spec_subs().contains_key(t) ==> self.spec_subs()[t].len() >= 1,
    {
        assert forall|t: Seq<char>| #[trigger]
            self.spec_subs().contains_key(t) implies self.spec_subs()[t].len() >= 1 by {
            self.subscriptions.lemma_topics_nonempty(t);
        }
    }

    pub fn new() -> (r: PubsubServer)
        ensures
            r.wf(),
            r.spec_conns().len() == 0,
            r.spec_subs() =~= Map::<Seq<char>, Seq<usize>>::empty(),
            r.spec_pending() =~= Map::<EventId, EventInfo>::empty(),
    {
        PubsubServer {
            connections: Vec::new(),
            subscriptions: SubscriptionMap::new(),
            pending_events: PendingEvents::new(),
        }
    }

    /// Whether `token` names a live connection.
    pub fn is_live(&self, token: usize) -> (r: bool)
        ensures
            r == self.live(token as int),
    {
        token < self.connections.len() && self.connections[token].is_some()
    }

    /// How many bytes the transport may hand to `on_client_readable`.
    pub fn connection_free_space(&self, token: usize) -> (r: usize)
        requires
            self.wf(),
            self.live(token as int),
        ensures
            r == self.conn(token as int).spec_free(),
    {
        proof {
            assert(self.conn(token as int).steady());
        }
        match &self.connections[token] {
            Some(c) => c.free_space(),
            None => 0,
        }
    }

    /// Whether the transport should watch `token` for writability.
    pub fn wants_write(&self, token: usize) -> (r: bool)
        requires
            self.live(token as int),
        ensures
            r == (self.queue(token as int).len() > 0),
    {
        match &self.connections[token] {
            Some(c) => c.has_events_pending(),
            None => false,
        }
    }



    /// Two broker values with the same slab view and the same tables
    /// satisfy the invariant together.
    proof fn lemma_wf_view_eq(pre: PubsubServer, post: PubsubServer)
        requires
            pre.wf(),
            post.spec_conns() == pre.spec_conns(),
            post.subscriptions == pre.subscriptions,
            post.pending_events == pre.pending_events,
        ensures
            post.wf(),
    {
        assert forall|i: int| post.live(i) implies {
            &&& (#[trigger] post.conn(i)).steady()
            &&& post.conn(i).spec_token() == i
            &&& (post.queue(i).len() > 0 ==> post.conn(i).spec_offset() <= post.spec_pending()[
                post.queue(i)[0]
            ].data.len())
            &&& (post.queue(i).len() == 0 ==> post.conn(i).spec_offset() == 0)
        } by {
            assert(pre.live(i));
            assert(pre.conn(i).steady());
        }
        assert forall|i: int, k: int|
            post.live(i) && 0 <= k < post.queue(i).len() implies post.spec_pending().contains_key(
            #[trigger] post.queue(i)[k]) by {
            assert(pre.live(i));
            assert(pre.spec_pending().contains_key(pre.queue(i)[k]));
        }
        assert forall|t: Seq<char>, j: int|
            #![trigger post.spec_subs()[t][j]]
            post.spec_subs().contains_key(t) && 0 <= j < post.spec_subs()[t].len() implies
            post.live(post.spec_subs()[t][j] as int) by {
            assert(pre.live(pre.spec_subs()[t][j] as int));
        }
        assert forall|id: EventId| #[trigger]
            post.spec_pending().contains_key(id) implies post.spec_pending()[id].remaining
            == total_count(post.spec_conns(), id, post.spec_conns().len() as int) by {
            assert(pre.spec_pending().contains_key(id));
        }
    }

    /// A broker that gained one fresh, empty connection, everything
    /// else staying put, is still well formed.
    proof fn lemma_wf_after_new_slot(pre: PubsubServer, post: PubsubServer, token: int)
        requires
            pre.wf(),
            post.subscriptions == pre.subscriptions,
            post.pending_events == pre.pending_events,
            pre.spec_conns().len() <= post.spec_conns().len() <= MAX_CONNECTIONS,
            0 <= token < post.spec_conns().len(),
            !pre.live(token),
            forall|i: int|
                0 <= i < pre.spec_conns().len() && i != token ==> #[trigger] post.spec_conns()[i]
                    == pre.spec_conns()[i],
            forall|i: int|
                pre.spec_conns().len() <= i < post.spec_conns().len() && i != token
                    ==> #[trigger] post.spec_conns()[i] is None,
            post.live(token),
            post.conn(token).steady(),
            post.conn(token).spec_token() == token,
            post.conn(token).spec_queue() == Seq::<EventId>::empty(),
            post.conn(token).spec_offset() == 0,
            post.recipients_consistent(),
        ensures
            post.wf(),
    {
        assert forall|i: int| post.live(i) implies {
            &&& (#[trigger] post.conn(i)).steady()
            &&& post.conn(i).spec_token() == i
            &&& (post.queue(i).len() > 0 ==> post.conn(i).spec_offset() <= post.spec_pending()[
                post.queue(i)[0]
            ].data.len())
            &&& (post.queue(i).len() == 0 ==> post.conn(i).spec_offset() == 0)
        } by {
            if i != token {
                assert(post.spec_conns()[i] == pre.spec_conns()[i]);
                assert(pre.live(i));
                assert(pre.conn(i).steady());
            }
        }
        assert forall|i: int, k: int|
            post.live(i) && 0 <= k < post.queue(i).len() implies post.spec_pending().contains_key(
            #[trigger] post.queue(i)[k]) by {
            if i != token {
                assert(post.spec_conns()[i] == pre.spec_conns()[i]);
                assert(pre.live(i));
                assert(pre.spec_pending().contains_key(pre.queue(i)[k]));
            }
        }
        assert forall|t: Seq<char>, j: int|
            #![trigger post.spec_subs()[t][j]]
            post.spec_subs().contains_key(t) && 0 <= j < post.spec_subs()[t].len() implies
            post.live(post.spec_subs()[t][j] as int) by {
            assert(pre.spec_subs().contains_key(t));
            assert(pre.live(pre.spec_subs()[t][j] as int));
            let x = pre.spec_subs()[t][j] as int;
            assert(x != token);
            assert(post.spec_conns()[x] == pre.spec_conns()[x]);
        }
    }

    /// Admit a new connection: reuse a free slot or grow the slab, up
    /// to its capacity. The fresh connection subscribes to nothing and
    /// has nothing queued.
    pub fn add_connection(&mut self) -> (r: Option<usize>)
        requires
            old(self).wf(),
        ensures
            final(self).wf(),
            final(self).spec_subs() == old(self).spec_subs(),
            final(self).spec_pending() == old(self).spec_pending(),
            final(self).spec_counter() == old(self).spec_counter(),
            match r {
                None => final(self).spec_conns() == old(self).spec_conns() && old(
                    self,
                ).spec_conns().len() == MAX_CONNECTIONS,
                Some(token) => {
                    &&& !old(self).live(token as int)
                    &&& final(self).live(token as int)
                    &&& final(self).queue(token as int) == Seq::<EventId>::empty()
                    &&& final(self).conn(token as int).residue() == Seq::<u8>::empty()
                    &&& final(self).conn(token as int).spec_free()
                        == crate::MAX_PACKET_SIZE as int
                    &&& forall|j: int| 0 <= j < token ==> old(self).live(j)
                    &&& token <= old(self).spec_conns().len()
                    &&& ((token as int) < old(self).spec_conns().len()
                        ==> final(self).spec_conns().len() == old(self).spec_conns().len())
                    &&& ((token as int) == old(self).spec_conns().len()
                        ==> final(self).spec_conns().len() == old(self).spec_conns().len() + 1)
                    &&& forall|i: int|
                        0 <= i < old(self).spec_conns().len() && i != token
                            ==> final(self).spec_conns()[i] == old(self).spec_conns()[i]
                },
            },
    {
        let ghost conns0 = self.connections@;
        let mut i: usize = 0;
        while i < self.connections.len()
            invariant
                i <= self.connections@.len(),
                self.connections@ == conns0,
                conns0 == old(self).connections@,
                self.subscriptions == old(self).subscriptions,
                self.pending_events == old(self).pending_events,
                old(self).wf(),
                self.wf(),
                forall|j: int| 0 <= j < i ==> (#[trigger] conns0[j]) is Some,
            decreases self.connections@.len() - i,
        {
            if self.connections[i].is_none() {
                let client = PubsubClient::new(i);
                let mut slot: Option<PubsubClient> = Some(client);
                core::mem::swap(&mut slot, &mut self.connections[i]);
                proof {
                    let a = conns0;
                    let b = self.connections@;
                    assert(queue_at(a, i as int) =~= Seq::<EventId>::empty());
                    assert(queue_at(b, i as int) =~= Seq::<EventId>::empty());
                    assert forall|id: EventId| #[trigger]
                        self.spec_pending().contains_key(id) implies self.spec_pending()[
                        id
                    ].remaining == total_count(b, id, b.len() as int) by {
                        assert(old(self).spec_pending() == self.spec_pending());
                        assert(old(self).spec_pending().contains_key(id));
                        lemma_total_count_ext(a, b, id, a.len() as int);
                    }
                    PubsubServer::lemma_wf_after_new_slot(*old(self), *self, i as int);
                }
                return Some(i);
            }
            i = i + 1;
        }
        if self.connections.len() >= MAX_CONNECTIONS {
            return None;
        }
        let token: usize = self.connections.len();
        let client = PubsubClient::new(token);
        self.connections.push(Some(client));
        proof {
            let a = old(self).connections@;
            let b = self.connections@;
            assert forall|id: EventId| #[trigger]
                self.spec_pending().contains_key(id) implies self.spec_pending()[id].remaining
                == total_count(b, id, b.len() as int) by {
                assert(old(self).spec_pending() == self.spec_pending());
                assert(old(self).spec_pending().contains_key(id));
                assert forall|j: int| 0 <= j < a.len() implies queue_at(a, j) == queue_at(
                    b,
                    j,
                ) by {}
                lemma_total_count_ext(a, b, id, a.len() as int);
                assert(queue_at(b, b.len() - 1) =~= Seq::<EventId>::empty());
                assert(total_count(b, id, b.len() as int) == total_count(b, id, a.len() as int));
            }
            PubsubServer::lemma_wf_after_new_slot(*old(self), *self, token as int);
        }
        Some(token)
    }



    /// After a fan-out that pushed one fresh id onto exactly the
    /// subscribers' queues and stored the event with their count, the
    /// broker invariant holds again.
    proof fn lemma_publish_wf(
        &self,
        pre: PubsubServer,
        topic: Seq<char>,
        payload: Seq<u8>,
        id: EventId,
        clients: Seq<usize>,
    )
        requires
            pre.wf(),
            self.subscriptions == pre.subscriptions,
            self.pending_events.wf(),
            pre.spec_subs().contains_key(topic),
            clients == pre.spec_subs()[topic],
            clients.len() >= 1,
            self.spec_conns().len() == pre.spec_conns().len(),
            !pre.spec_pending().contains_key(id),
            self.spec_pending() == pre.spec_pending().insert(
                id,
                EventInfo {
                    data: PubsubServer::event_bytes(topic, payload),
                    remaining: clients.len() as nat,
                },
            ),
            forall|i: int|
                0 <= i < pre.spec_conns().len() ==> ((#[trigger] self.spec_conns()[i]) is Some
                    <==> pre.spec_conns()[i] is Some),
            forall|i: int|
                0 <= i < pre.spec_conns().len() && pre.spec_conns()[i] is Some ==> ({
                    let c0 = pre.spec_conns()[i]->0;
                    let c1 = (#[trigger] self.spec_conns()[i])->0;
                    &&& c1.steady()
                    &&& c1.spec_token() == c0.spec_token()
                    &&& c1.spec_offset() == c0.spec_offset()
                    &&& c1.spec_queue() == (if clients.contains(i as usize) {
                        c0.spec_queue().push(id)
                    } else {
                        c0.spec_queue()
                    })
                }),
            total_count(self.spec_conns(), id, self.spec_conns().len() as int) == clients.len(),
            forall|id2: EventId|
                id2 != id ==> #[trigger] total_count(
                    self.spec_conns(),
                    id2,
                    self.spec_conns().len() as int,
                ) == total_count(pre.spec_conns(), id2, pre.spec_conns().len() as int),
        ensures
            self.wf(),
    {
        let n = pre.spec_conns().len() as int;
        assert forall|id2: EventId| #[trigger]
            self.spec_pending().contains_key(id2) implies self.spec_pending()[id2].remaining
            == total_count(self.spec_conns(), id2, n) by {
            if id2 != id {
                assert(pre.spec_pending().contains_key(id2));
            }
        }
        assert forall|i: int, k: int|
            self.live(i) && 0 <= k < self.queue(i).len() implies self.spec_pending().contains_key(
            #[trigger] self.queue(i)[k]) by {
            let c0 = pre.spec_conns()[i]->0;
            assert(pre.live(i));
            if clients.contains(i as usize) {
                if k < c0.spec_queue().len() {
                    assert(self.queue(i)[k] == pre.queue(i)[k]);
                    assert(pre.spec_pending().contains_key(pre.queue(i)[k]));
                } else {
                    assert(self.queue(i)[k] == id);
                }
            } else {
                assert(self.queue(i)[k] == pre.queue(i)[k]);
                assert(pre.spec_pending().contains_key(pre.queue(i)[k]));
            }
        }
        assert forall|t: Seq<char>, j: int|
            #![trigger self.spec_subs()[t][j]]
            self.spec_subs().contains_key(t) && 0 <= j < self.spec_subs()[t].len() implies
            self.live(self.spec_subs()[t][j] as int) by {
            assert(pre.spec_subs()[t][j] == self.spec_subs()[t][j]);
            assert(pre.live(pre.spec_subs()[t][j] as int));
        }
        assert forall|i: int| self.live(i) implies {
            &&& (#[trigger] self.conn(i)).steady()
            &&& self.conn(i).spec_token() == i
            &&& (self.queue(i).len() > 0 ==> self.conn(i).spec_offset() <= self.spec_pending()[
                self.queue(i)[0]
            ].data.len())
            &&& (self.queue(i).len() == 0 ==> self.conn(i).spec_offset() == 0)
        } by {
            assert(pre.live(i));
            let c0 = pre.spec_conns()[i]->0;
            assert(pre.conn(i).steady());
            assert(pre.conn(i).spec_token() == i);
            if clients.contains(i as usize) {
                if c0.spec_queue().len() > 0 {
                    assert(self.queue(i)[0] == pre.queue(i)[0]);
                    assert(pre.spec_pending().contains_key(pre.queue(i)[0]));
                    assert(self.queue(i)[0] != id);
                } else {
                    assert(self.conn(i).spec_offset() == 0);
                }
            } else {
                if self.queue(i).len() > 0 {
                    assert(pre.spec_pending().contains_key(pre.queue(i)[0]));
                    assert(self.queue(i)[0] != id);
                }
            }
        }
    }

    /// The wire form of the Event frame a publish to `name` with
    /// `payload` fans out.
    pub open spec fn event_bytes(name: Seq<char>, payload: Seq<u8>) -> Seq<u8> {
        seq![4u8, encode_utf8(name).len() as u8] + encode_utf8(name) + seq![
            (payload.len() / 256) as u8,
            (payload.len() % 256) as u8,
        ] + payload
    }

    /// Fan a publish out: when the topic has subscribers and the
    /// frame fits its fields, encode one Event frame, store it once
    /// with the subscriber count, and enqueue its id on every
    /// subscriber, the publisher included if it is subscribed.
    /// A publish to a topic without subscribers does nothing and
    /// creates nothing.
    pub fn publish_event(&mut self, topic: &String, payload: Vec<u8>) -> (r: Option<EventId>)
        requires
            old(self).wf(),
        ensures
            final(self).wf(),
            publish_effect(*old(self), *final(self), topic@, payload@),
            r is Some <==> spec_can_publish(*old(self), topic@, payload@),
            r matches Some(id) ==> id == old(self).spec_counter(),
    {
        let ghost m0 = self.subscriptions@;
        let clients: Vec<usize> = self.subscriptions.subscribers(topic);
        proof {
            if self.subscriptions@.contains_key(topic@) {
                self.subscriptions.lemma_topics_nonempty(topic@);
            }
        }
        if clients.len() == 0 {
            return None;
        }
        let mut builder = MessageBuilder::new();
        builder.message_type(MessageType::Event);
        builder.event_name(topic.clone());
        builder.payload(payload);
        let message: Message = match builder.build() {
            Ok(m) => m,
            Err(_) => {
                return None;
            },
        };
        if self.pending_events.id_counter() == EventId::MAX {
            return None;
        }
        let data: Vec<u8> = message.into_bytes();
        proof {
            assert(data@ =~= PubsubServer::event_bytes(topic@, payload@));
        }
        let recipients: usize = clients.len();
        let event_id: EventId = self.pending_events.add_event(data, recipients);
        let ghost pend1 = self.pending_events;
        let ghost conns0 = self.connections@;
        proof {
            assert forall|i: int| 0 <= i < conns0.len() implies !queue_at(
                conns0,
                i,
            ).contains(event_id) by {
                if conns0[i] is Some && queue_at(conns0, i).contains(event_id) {
                    let kk = choose|kk: int|
                        0 <= kk < queue_at(conns0, i).len() && queue_at(conns0, i)[kk] == event_id;
                    assert(old(self).live(i));
                    assert(old(self).queue(i)[kk] == event_id);
                    assert(old(self).spec_pending().contains_key(old(self).queue(i)[kk]));
                }
            }
            lemma_total_count_zero(conns0, event_id, conns0.len() as int);
            assert forall|i: int|
                0 <= i < conns0.len() && conns0[i] is Some implies ({
                    let c0 = conns0[i]->0;
                    &&& c0.steady()
                    &&& c0.spec_token() == i
                }) by {
                assert(old(self).live(i));
                assert(old(self).conn(i).steady());
            }
            assert forall|a: int|
                0 <= a < clients@.len() implies (#[trigger] clients@[a] < conns0.len() && conns0[
                clients@[a] as int
            ] is Some) by {
                assert(old(self).spec_subs()[topic@][a] == clients@[a]);
                assert(old(self).live(old(self).spec_subs()[topic@][a] as int));
            }
        }
        let mut k: usize = 0;
        while k < clients.len()
            invariant
                k <= clients@.len(),
                self.connections@.len() == conns0.len(),
                conns0 == old(self).connections@,
                self.subscriptions == old(self).subscriptions,
                self.pending_events == pend1,
                old(self).wf(),
                clients@ == old(self).spec_subs()[topic@],
                forall|a: int, b: int| 0 <= a < b < clients@.len() ==> clients@[a] != clients@[b],
                forall|a: int|
                    0 <= a < clients@.len() ==> (#[trigger] clients@[a] < conns0.len() && conns0[
                        clients@[a] as int
                    ] is Some),
                forall|i: int|
                    0 <= i < conns0.len() ==> ((#[trigger] self.connections@[i]) is Some <==> conns0[i] is Some),
                forall|i: int|
                    0 <= i < conns0.len() && conns0[i] is Some ==> ({
                        let c0 = conns0[i]->0;
                        let c1 = (#[trigger] self.connections@[i])->0;
                        &&& c1.steady()
                        &&& c1.spec_token() == c0.spec_token()
                        &&& c1.residue() == c0.residue()
                        &&& c1.spec_offset() == c0.spec_offset()
                        &&& c1.spec_free() == c0.spec_free()
                        &&& c1.spec_queue() == (if (exists|a: int|
                            0 <= a < k && clients@[a] == i) {
                            c0.spec_queue().push(event_id)
                        } else {
                            c0.spec_queue()
                        })
                    }),
                total_count(self.connections@, event_id, conns0.len() as int) == k,
                forall|id2: EventId|
                    id2 != event_id ==> #[trigger] total_count(
                        self.connections@,
                        id2,
                        conns0.len() as int,
                    ) == total_count(conns0, id2, conns0.len() as int),
            decreases clients@.len() - k,
        {
            let c: usize = clients[k];
            let ghost pre = self.connections@;
            let mut slot: Option<PubsubClient> = None;
            core::mem::swap(&mut slot, &mut self.connections[c]);
            let ghost mid = self.connections@;
            match slot {
                Some(mut client) => {
                    client.publish(event_id);
                    let mut back: Option<PubsubClient> = Some(client);
                    core::mem::swap(&mut back, &mut self.connections[c]);
                },
                None => {
                    proof {
                        assert(false);
                    }
                },
            }
            let ghost post = self.connections@;
            proof {
                assert(post.len() == pre.len());
                assert(queue_at(post, c as int) =~= queue_at(pre, c as int).push(event_id));
                assert forall|i: int| 0 <= i < conns0.len() && i != c implies queue_at(post, i)
                    == queue_at(pre, i) by {
                    assert(post[i] == pre[i]);
                }
                lemma_count_push(queue_at(pre, c as int), event_id, event_id);
                lemma_total_count_update(
                    pre,
                    post,
                    c as int,
                    event_id,
                    conns0.len() as int,
                );
                assert(!(exists|a: int| 0 <= a < k && clients@[a] == c));
                assert forall|id2: EventId|
                    id2 != event_id implies #[trigger] total_count(post, id2, conns0.len() as int)
                    == total_count(conns0, id2, conns0.len() as int) by {
                    lemma_count_push(queue_at(pre, c as int), event_id, id2);
                    lemma_total_count_update(pre, post, c as int, id2, conns0.len() as int);
                }
            }
            k = k + 1;
            proof {
                assert forall|i: int|
                    0 <= i < conns0.len() && conns0[i] is Some implies ({
                        let c0 = conns0[i]->0;
                        let c1 = (#[trigger] self.connections@[i])->0;
                        c1.spec_queue() == (if (exists|a: int|
                            0 <= a < k && clients@[a] == i) {
                            c0.spec_queue().push(event_id)
                        } else {
                            c0.spec_queue()
                        })
                    }) by {
                    if i == c {
                        assert(clients@[k - 1] == i);
                    } else {
                        assert(self.connections@[i] == pre[i]);
                        if exists|a: int| 0 <= a < k && clients@[a] == i {
                            let a = choose|a: int| 0 <= a < k && clients@[a] == i;
                            assert(a < k - 1 || clients@[a] == c);
                            assert(exists|a2: int| 0 <= a2 < k - 1 && clients@[a2] == i);
                        }
                    }
                }
            }
        }
        proof {
            self.lemma_publish_wf(*old(self), topic@, payload@, event_id, clients@);
        }
        Some(event_id)
    }

    /// The bytes of `token`'s head event still to be written, from
    /// its current offset on: what the transport should try to send.
    pub fn writable_event_data<'a>(&'a self, token: usize) -> (r: Option<&'a [u8]>)
        requires
            self.wf(),
            self.live(token as int),
            self.queue(token as int).len() > 0,
        ensures
            r matches Some(d) && d@ == self.spec_pending()[self.queue(token as int)[0]].data.skip(
                self.conn(token as int).spec_offset(),
            ),
    {
        proof {
            assert(self.conn(token as int).steady());
            assert(self.spec_pending().contains_key(self.queue(token as int)[0]));
        }
        match &self.connections[token] {
            Some(c) => c.writable_data(&self.pending_events),
            None => None,
        }
    }

    /// Account for `written` bytes of `token`'s head event having
    /// gone out. Draining it pops it off the queue and counts the
    /// recipient off in the table, freeing the event when it was the
    /// last.
    pub fn on_client_writable(&mut self, token: usize, written: usize)
        requires
            old(self).wf(),
            old(self).live(token as int),
            old(self).queue(token as int).len() > 0,
            old(self).conn(token as int).spec_offset() + written <= old(self).spec_pending()[
                old(self).queue(token as int)[0]
            ].data.len(),
        ensures
            final(self).wf(),
            final(self).spec_subs() == old(self).spec_subs(),
            final(self).spec_counter() == old(self).spec_counter(),
            final(self).spec_conns().len() == old(self).spec_conns().len(),
            forall|i: int|
                0 <= i < old(self).spec_conns().len() && i != token
                    ==> #[trigger] final(self).spec_conns()[i] == old(self).spec_conns()[i],
            final(self).live(token as int),
            final(self).conn(token as int).residue() == old(self).conn(token as int).residue(),
            ({
                let head = old(self).queue(token as int)[0];
                let dlen = old(self).spec_pending()[head].data.len();
                if old(self).conn(token as int).spec_offset() + written < dlen {
                    &&& final(self).spec_pending() == old(self).spec_pending()
                    &&& final(self).queue(token as int) == old(self).queue(token as int)
                    &&& final(self).conn(token as int).spec_offset() == old(self).conn(
                        token as int,
                    ).spec_offset() + written
                } else {
                    &&& final(self).spec_pending() == release_one(old(self).spec_pending(), head)
                    &&& final(self).queue(token as int) == old(self).queue(token as int).skip(1)
                    &&& final(self).conn(token as int).spec_offset() == 0
                }
            }),
    {
        proof {
            assert(old(self).conn(token as int).steady());
            assert(old(self).spec_pending().contains_key(old(self).queue(token as int)[0]));
            self.pending_events.lemma_live_events_have_recipients(
                old(self).queue(token as int)[0],
            );
        }
        let mut slot: Option<PubsubClient> = None;
        core::mem::swap(&mut slot, &mut self.connections[token]);
        match slot {
            Some(mut client) => {
                let _ = client.write(&mut self.pending_events, written);
                let mut back: Option<PubsubClient> = Some(client);
                core::mem::swap(&mut back, &mut self.connections[token]);
            },
            None => {
                proof {
                    assert(false);
                }
            },
        }
        proof {
            self.lemma_writable_wf(*old(self), token as int, written as int);
        }
    }

    /// After one write-progress step on one connection, the broker
    /// invariant holds again.
    proof fn lemma_writable_wf(&self, pre: PubsubServer, token: int, written: int)
        requires
            pre.wf(),
            pre.live(token),
            pre.queue(token).len() > 0,
            pre.spec_pending().contains_key(pre.queue(token)[0]),
            pre.conn(token).spec_offset() + written <= pre.spec_pending()[pre.queue(
                token,
            )[0]].data.len(),
            self.subscriptions == pre.subscriptions,
            self.pending_events.wf(),
            self.pending_events.spec_id_counter() == pre.spec_counter(),
            self.spec_conns().len() == pre.spec_conns().len(),
            forall|i: int|
                0 <= i < pre.spec_conns().len() && i != token ==> #[trigger] self.spec_conns()[i]
                    == pre.spec_conns()[i],
            self.live(token),
            self.conn(token).steady(),
            self.conn(token).spec_token() == pre.conn(token).spec_token(),
            self.conn(token).residue() == pre.conn(token).residue(),
            ({
                let head = pre.queue(token)[0];
                let dlen = pre.spec_pending()[head].data.len();
                if pre.conn(token).spec_offset() + written < dlen {
                    &&& self.spec_pending() == pre.spec_pending()
                    &&& self.queue(token) == pre.queue(token)
                    &&& self.conn(token).spec_offset() == pre.conn(token).spec_offset() + written
                } else {
                    &&& self.spec_pending() == release_one(pre.spec_pending(), head)
                    &&& self.queue(token) == pre.queue(token).skip(1)
                    &&& self.conn(token).spec_offset() == 0
                }
            }),
        ensures
            self.wf(),
    {
        let n = pre.spec_conns().len() as int;
        let head = pre.queue(token)[0];
        let dlen = pre.spec_pending()[head].data.len();
        let finished = pre.conn(token).spec_offset() + written >= dlen;
        pre.pending_events.lemma_live_events_have_recipients(head);
        assert forall|i: int|
            0 <= i < n && i != token implies queue_at(self.spec_conns(), i) == queue_at(
            pre.spec_conns(),
            i,
        ) by {}
        if !finished {
            assert forall|id: EventId| #[trigger]
                self.spec_pending().contains_key(id) implies self.spec_pending()[id].remaining
                == total_count(self.spec_conns(), id, n) by {
                assert(pre.spec_pending().contains_key(id));
                lemma_total_count_ext(pre.spec_conns(), self.spec_conns(), id, n);
            }
        } else {
            lemma_count_skip1(pre.queue(token), head);
            assert forall|id: EventId| #[trigger]
                self.spec_pending().contains_key(id) implies self.spec_pending()[id].remaining
                == total_count(self.spec_conns(), id, n) by {
                assert(pre.spec_pending().contains_key(id));
                lemma_count_skip1(pre.queue(token), id);
                lemma_total_count_update(pre.spec_conns(), self.spec_conns(), token, id, n);
            }
        }
        assert forall|i: int, k: int|
            self.live(i) && 0 <= k < self.queue(i).len() implies self.spec_pending().contains_key(
            #[trigger] self.queue(i)[k]) by {
            assert(pre.live(i));
            if i != token {
                assert(self.queue(i)[k] == pre.queue(i)[k]);
                assert(pre.spec_pending().contains_key(pre.queue(i)[k]));
                let id = pre.queue(i)[k];
                if finished && id == head && !self.spec_pending().contains_key(id) {
                    assert(pre.spec_pending()[head].remaining == 1);
                    assert(total_count(pre.spec_conns(), head, n) == 1);
                    lemma_count_skip1(pre.queue(token), head);
                    lemma_total_count_update(pre.spec_conns(), self.spec_conns(), token, head, n);
                    assert(total_count(self.spec_conns(), head, n) == 0);
                    lemma_total_count_bound(self.spec_conns(), head, i, n);
                    lemma_count_contains(queue_at(self.spec_conns(), i), head);
                }
                if finished && id != head {
                    assert(self.spec_pending().contains_key(id));
                }
            } else {
                if finished {
                    assert(self.queue(i)[k] == pre.queue(i)[k + 1]);
                } else {
                    assert(self.queue(i)[k] == pre.queue(i)[k]);
                }
                let id = pre.queue(i)[if finished {
                    k + 1
                } else {
                    k
                }];
                assert(pre.spec_pending().contains_key(id));
                if finished && id == head && !self.spec_pending().contains_key(id) {
                    assert(pre.spec_pending()[head].remaining == 1);
                    lemma_count_skip1(pre.queue(token), head);
                    lemma_total_count_update(pre.spec_conns(), self.spec_conns(), token, head, n);
                    assert(total_count(self.spec_conns(), head, n) == 0);
                    lemma_total_count_bound(self.spec_conns(), head, i, n);
                    lemma_count_contains(queue_at(self.spec_conns(), i), head);
                }
            }
        }
        assert forall|t: Seq<char>, j: int|
            #![trigger self.spec_subs()[t][j]]
            self.spec_subs().contains_key(t) && 0 <= j < self.spec_subs()[t].len() implies
            self.live(self.spec_subs()[t][j] as int) by {
            assert(pre.live(pre.spec_subs()[t][j] as int));
            let x = pre.spec_subs()[t][j] as int;
            if x != token {
                assert(self.spec_conns()[x] == pre.spec_conns()[x]);
            }
        }
        assert forall|i: int| self.live(i) implies {
            &&& (#[trigger] self.conn(i)).steady()
            &&& self.conn(i).spec_token() == i
            &&& (self.queue(i).len() > 0 ==> self.conn(i).spec_offset() <= self.spec_pending()[
                self.queue(i)[0]
            ].data.len())
            &&& (self.queue(i).len() == 0 ==> self.conn(i).spec_offset() == 0)
        } by {
            assert(pre.live(i));
            assert(pre.conn(i).steady());
            if i != token {
                assert(self.conn(i) == pre.conn(i));
                if self.queue(i).len() > 0 {
                    let h2 = pre.queue(i)[0];
                    assert(pre.spec_pending().contains_key(h2));
                    if finished && h2 == head && !self.spec_pending().contains_key(h2) {
                        assert(pre.spec_pending()[head].remaining == 1);
                        lemma_count_skip1(pre.queue(token), head);
                        lemma_total_count_update(
                            pre.spec_conns(),
                            self.spec_conns(),
                            token,
                            head,
                            n,
                        );
                        lemma_total_count_bound(self.spec_conns(), head, i, n);
                        lemma_count_contains(queue_at(self.spec_conns(), i), head);
                    }
                    if finished && h2 == head {
                        assert(self.spec_pending().contains_key(h2));
                        assert(self.spec_pending()[h2].data == pre.spec_pending()[h2].data);
                    }
                }
            } else {
                if !finished {
                    assert(self.queue(i) == pre.queue(i));
                    assert(self.queue(i)[0] == head);
                    assert(self.conn(i).spec_offset() <= dlen);
                    if self.spec_pending() == pre.spec_pending() {
                    }
                } else {
                    if self.queue(i).len() > 0 {
                        let h2 = pre.queue(token)[1];
                        assert(self.queue(i)[0] == h2);
                        assert(pre.spec_pending().contains_key(h2));
                        if h2 == head && !self.spec_pending().contains_key(h2) {
                            assert(pre.spec_pending()[head].remaining == 1);
                            lemma_count_skip1(pre.queue(token), head);
                            lemma_total_count_update(
                                pre.spec_conns(),
                                self.spec_conns(),
                                token,
                                head,
                                n,
                            );
                            lemma_total_count_bound(self.spec_conns(), head, i, n);
                            lemma_count_contains(queue_at(self.spec_conns(), i), head);
                            assert(self.queue(i).contains(head)) by {
                                assert(self.queue(i)[0] == head);
                            }
                        }
                    }
                }
            }
        }
    }

    /// A fatal error on `token`: release everything it still had
    /// queued (so recipient counts stay exact), take it out of every
    /// topic, and free its slot. Closing a dead slot is a no-op.
    pub fn close_connection(&mut self, token: usize)
        requires
            old(self).wf(),
        ensures
            final(self).wf(),
            close_effect(*old(self), *final(self), token as int),
    {
        if token >= self.connections.len() {
            proof {
                assert(!self.live(token as int));
                self.lemma_close_noop(token as int);
            }
            return ;
        }
        let mut slot: Option<PubsubClient> = None;
        core::mem::swap(&mut slot, &mut self.connections[token]);
        match slot {
            Some(mut client) => {
                client.clear_events(&mut self.pending_events);
                self.subscriptions.remove_connection(token);
                proof {
                    self.lemma_close_wf(*old(self), token as int);
                    assert(self.wf());
                }
            },
            None => {
                proof {
                    assert(self.connections@ =~= old(self).connections@);
                    PubsubServer::lemma_wf_view_eq(*old(self), *self);
                    self.lemma_close_noop(token as int);
                }
            },
        }
    }

    /// Closing a dead slot is a no-op on every table: its queue is
    /// empty and, with subscribers always live, no topic names it.
    proof fn lemma_close_noop(&self, token: int)
        requires
            self.wf(),
            !self.live(token),
            0 <= token <= usize::MAX,
        ensures
            close_effect(*self, *self, token),
    {
        assert(queue_at(self.spec_conns(), token) =~= Seq::<EventId>::empty());
        assert(release_all(self.spec_pending(), self.queue(token)) == self.spec_pending());
        assert forall|t: Seq<char>| #[trigger] self.spec_subs().contains_key(t) implies (
        remove_conn(self.spec_subs()[t], token as usize).len() > 0 && self.spec_subs()[t]
            == remove_conn(self.spec_subs()[t], token as usize)) by {
            let l = self.spec_subs()[t];
            self.subscriptions.lemma_topics_nonempty(t);
            assert(!l.contains(token as usize)) by {
                if l.contains(token as usize) {
                    let j = choose|j: int| 0 <= j < l.len() && l[j] == token as usize;
                    assert(self.live(self.spec_subs()[t][j] as int));
                    assert(self.spec_subs()[t][j] as int == token);
                }
            }
            crate::subscriptions::lemma_remove_conn_absent(l, token as usize);
        }
    }

    /// After a close released the connection's queue, cleaned its
    /// subscriptions and freed its slot, the broker invariant holds
    /// again.
    proof fn lemma_close_wf(&self, pre: PubsubServer, token: int)
        requires
            pre.wf(),
            pre.live(token),
            self.spec_conns().len() == pre.spec_conns().len(),
            forall|i: int|
                0 <= i < pre.spec_conns().len() && i != token ==> #[trigger] self.spec_conns()[i]
                    == pre.spec_conns()[i],
            !self.live(token),
            self.pending_events.wf(),
            self.pending_events.spec_id_counter() == pre.spec_counter(),
            self.spec_pending() == release_all(pre.spec_pending(), pre.queue(token)),
            self.subscriptions.wf(),
            forall|t: Seq<char>|
                #[trigger] self.spec_subs().contains_key(t) <==> (pre.spec_subs().contains_key(t)
                    && remove_conn(pre.spec_subs()[t], token as usize).len() > 0),
            forall|t: Seq<char>|
                self.spec_subs().contains_key(t) ==> #[trigger] self.spec_subs()[t]
                    == remove_conn(pre.spec_subs()[t], token as usize),
        ensures
            self.wf(),
    {
        let n = pre.spec_conns().len() as int;
        let q = pre.queue(token);
        let m = pre.spec_pending();
        assert forall|id: EventId| #[trigger] m.contains_key(id) implies (m[id].remaining >= 1
            && count_in(q, id) <= m[id].remaining) by {
            pre.pending_events.lemma_live_events_have_recipients(id);
            lemma_total_count_bound(pre.spec_conns(), id, token, n);
        }
        assert forall|id: EventId| !m.contains_key(id) implies count_in(q, id) == 0 by {
            lemma_count_contains(q, id);
            if q.contains(id) {
                let k = choose|k: int| 0 <= k < q.len() && q[k] == id;
                assert(pre.spec_pending().contains_key(pre.queue(token)[k]));
            }
        }
        lemma_release_all(m, q);
        assert forall|i: int|
            0 <= i < n && i != token implies queue_at(self.spec_conns(), i) == queue_at(
            pre.spec_conns(),
            i,
        ) by {}
        assert(queue_at(self.spec_conns(), token) =~= Seq::<EventId>::empty());
        assert forall|id: EventId| #[trigger]
            self.spec_pending().contains_key(id) implies self.spec_pending()[id].remaining
            == total_count(self.spec_conns(), id, n) by {
            assert(m.contains_key(id));
            lemma_total_count_update(pre.spec_conns(), self.spec_conns(), token, id, n);
        }
        assert forall|i: int, k: int|
            self.live(i) && 0 <= k < self.queue(i).len() implies self.spec_pending().contains_key(
            #[trigger] self.queue(i)[k]) by {
            assert(i != token);
            assert(pre.live(i));
            assert(self.queue(i)[k] == pre.queue(i)[k]);
            let id = pre.queue(i)[k];
            assert(pre.spec_pending().contains_key(id));
            if !self.spec_pending().contains_key(id) {
                assert(m[id].remaining == count_in(q, id));
                assert(m[id].remaining == total_count(pre.spec_conns(), id, n));
                lemma_total_count_update(pre.spec_conns(), self.spec_conns(), token, id, n);
                assert(total_count(self.spec_conns(), id, n) == 0);
                lemma_total_count_bound(self.spec_conns(), id, i, n);
                lemma_count_contains(queue_at(self.spec_conns(), i), id);
                assert(queue_at(self.spec_conns(), i).contains(id)) by {
                    assert(queue_at(self.spec_conns(), i)[k] == id);
                }
            }
        }
        assert forall|t: Seq<char>, j: int|
            #![trigger self.spec_subs()[t][j]]
            self.spec_subs().contains_key(t) && 0 <= j < self.spec_subs()[t].len() implies
            self.live(self.spec_subs()[t][j] as int) by {
            let x = self.spec_subs()[t][j];
            lemma_remove_conn(pre.spec_subs()[t], token as usize);
            assert(remove_conn(pre.spec_subs()[t], token as usize).contains(x)) by {
                assert(remove_conn(pre.spec_subs()[t], token as usize)[j] == x);
            }
            assert(pre.spec_subs()[t].contains(x) && x != token as usize);
            let jj = choose|jj: int|
                0 <= jj < pre.spec_subs()[t].len() && pre.spec_subs()[t][jj] == x;
            assert(pre.live(pre.spec_subs()[t][jj] as int));
            assert(self.spec_conns()[x as int] == pre.spec_conns()[x as int]);
        }
        assert forall|i: int| self.live(i) implies {
            &&& (#[trigger] self.conn(i)).steady()
            &&& self.conn(i).spec_token() == i
            &&& (self.queue(i).len() > 0 ==> self.conn(i).spec_offset() <= self.spec_pending()[
                self.queue(i)[0]
            ].data.len())
            &&& (self.queue(i).len() == 0 ==> self.conn(i).spec_offset() == 0)
        } by {
            assert(i != token);
            assert(pre.live(i));
            assert(pre.conn(i).steady());
            assert(self.conn(i) == pre.conn(i));
            if self.queue(i).len() > 0 {
                let h2 = pre.queue(i)[0];
                assert(pre.spec_pending().contains_key(h2));
                assert(self.spec_pending().contains_key(h2)) by {
                    if !self.spec_pending().contains_key(h2) {
                        assert(m[h2].remaining == count_in(q, h2));
                        lemma_total_count_update(pre.spec_conns(), self.spec_conns(), token, h2, n);
                        assert(total_count(self.spec_conns(), h2, n) == 0);
                        lemma_total_count_bound(self.spec_conns(), h2, i, n);
                        lemma_count_contains(queue_at(self.spec_conns(), i), h2);
                        assert(queue_at(self.spec_conns(), i).contains(h2)) by {
                            assert(queue_at(self.spec_conns(), i)[0] == h2);
                        }
                    }
                }
                assert(self.spec_pending()[h2].data == m[h2].data);
            }
        }
    }

    /// With the slab and the table unchanged, a rewritten
    /// subscription map that still names only live connections keeps
    /// the broker well formed.
    proof fn lemma_wf_tables(pre: PubsubServer, post: PubsubServer)
        requires
            pre.wf(),
            post.spec_conns() == pre.spec_conns(),
            post.pending_events == pre.pending_events,
            post.subscriptions.wf(),
            post.subscribers_live(),
        ensures
            post.wf(),
    {
        assert forall|i: int| post.live(i) implies {
            &&& (#[trigger] post.conn(i)).steady()
            &&& post.conn(i).spec_token() == i
            &&& (post.queue(i).len() > 0 ==> post.conn(i).spec_offset() <= post.spec_pending()[
                post.queue(i)[0]
            ].data.len())
            &&& (post.queue(i).len() == 0 ==> post.conn(i).spec_offset() == 0)
        } by {
            assert(pre.live(i));
            assert(pre.conn(i).steady());
        }
        assert forall|i: int, k: int|
            post.live(i) && 0 <= k < post.queue(i).len() implies post.spec_pending().contains_key(
            #[trigger] post.queue(i)[k]) by {
            assert(pre.live(i));
            assert(pre.spec_pending().contains_key(pre.queue(i)[k]));
        }
        assert forall|id: EventId| #[trigger]
            post.spec_pending().contains_key(id) implies post.spec_pending()[id].remaining
            == total_count(post.spec_conns(), id, post.spec_conns().len() as int) by {
            assert(pre.spec_pending().contains_key(id));
        }
    }

    /// Register `token` as a subscriber of `topic`; idempotent.
    pub fn subscribe(&mut self, topic: String, token: usize)
        requires
            old(self).wf(),
            old(self).live(token as int),
        ensures
            final(self).wf(),
            final(self).spec_subs() =~= spec_subscribe(old(self).spec_subs(), topic@, token),
            final(self).spec_conns() == old(self).spec_conns(),
            final(self).spec_pending() == old(self).spec_pending(),
            final(self).spec_counter() == old(self).spec_counter(),
    {
        let ghost t = topic@;
        self.subscriptions.subscribe(topic, token);
        proof {
            let pre = *old(self);
            let m0 = pre.spec_subs();
            assert forall|t2: Seq<char>, j: int|
                #![trigger self.spec_subs()[t2][j]]
                self.spec_subs().contains_key(t2) && 0 <= j < self.spec_subs()[t2].len() implies
                self.live(self.spec_subs()[t2][j] as int) by {
                let x = self.spec_subs()[t2][j];
                if t2 == t {
                    if m0.contains_key(t) {
                        if m0[t].contains(token) {
                            assert(pre.live(pre.spec_subs()[t2][j] as int));
                        } else {
                            if j < m0[t].len() {
                                assert(x == m0[t][j]);
                                assert(pre.live(pre.spec_subs()[t2][j] as int));
                            } else {
                                assert(x == token);
                            }
                        }
                    } else {
                        assert(x == token);
                    }
                } else {
                    assert(m0.contains_key(t2) && m0[t2] == self.spec_subs()[t2]);
                    assert(pre.live(pre.spec_subs()[t2][j] as int));
                }
            }
            PubsubServer::lemma_wf_tables(pre, *self);
        }
    }

    /// Take `token` out of `topic`'s subscribers; a no-op for a
    /// non-subscriber, and a topic left empty disappears.
    pub fn unsubscribe(&mut self, topic: &String, token: usize)
        requires
            old(self).wf(),
        ensures
            final(self).wf(),
            final(self).spec_subs() =~= spec_unsubscribe(old(self).spec_subs(), topic@, token),
            final(self).spec_conns() == old(self).spec_conns(),
            final(self).spec_pending() == old(self).spec_pending(),
            final(self).spec_counter() == old(self).spec_counter(),
    {
        let ghost t = topic@;
        self.subscriptions.unsubscribe(topic, token);
        proof {
            let pre = *old(self);
            let m0 = pre.spec_subs();
            assert forall|t2: Seq<char>, j: int|
                #![trigger self.spec_subs()[t2][j]]
                self.spec_subs().contains_key(t2) && 0 <= j < self.spec_subs()[t2].len() implies
                self.live(self.spec_subs()[t2][j] as int) by {
                let x = self.spec_subs()[t2][j];
                if t2 == t && m0.contains_key(t) {
                    let l = remove_conn(m0[t], token);
                    assert(self.spec_subs()[t2] == l);
                    lemma_remove_conn(m0[t], token);
                    assert(l.contains(x)) by {
                        assert(l[j] == x);
                    }
                    assert(m0[t].contains(x));
                    let jj = choose|jj: int| 0 <= jj < m0[t].len() && m0[t][jj] == x;
                    assert(pre.live(pre.spec_subs()[t][jj] as int));
                } else {
                    assert(m0.contains_key(t2) && m0[t2] == self.spec_subs()[t2]);
                    assert(pre.live(pre.spec_subs()[t2][j] as int));
                }
            }
            PubsubServer::lemma_wf_tables(pre, *self);
        }
    }

    /// Route one decoded action: adjust the subscription map, fan a
    /// publish out, or close the connection on a fatal error, each
    /// exactly as `apply_effect` describes it. Hands back whether the
    /// connection is still live.
    pub fn apply_action(&mut self, token: usize, action: ClientAction) -> (alive: bool)
        requires
            old(self).wf(),
            old(self).live(token as int),
        ensures
            final(self).wf(),
            final(self).spec_conns().len() == old(self).spec_conns().len(),
            alive == final(self).live(token as int),
            !(action is Error) ==> alive,
            action is Nothing ==> *final(self) == *old(self),
            action.spec_action() matches Some(sa) ==> apply_effect(
                *old(self),
                *final(self),
                token as int,
                sa,
            ),
    {
        match action {
            ClientAction::Subscribe(event) => {
                self.subscribe(event, token);
                proof {
                    assert(self.spec_conns() == old(self).spec_conns());
                }
                true
            },
            ClientAction::Unsubscribe(event) => {
                self.unsubscribe(&event, token);
                true
            },
            ClientAction::Publish(event, data) => {
                let _ = self.publish_event(&event, data);
                proof {
                    let ghost c = self.conn(token as int);
                    assert(self.live(token as int));
                }
                true
            },
            ClientAction::Error => {
                self.close_connection(token);
                false
            },
            ClientAction::Nothing => true,
        }
    }

    /// Bytes arrived on `token`: run the decode loop over them and
    /// route every completed frame's action, closing the connection
    /// on a malformed or forbidden frame. The final state is the
    /// `routed` fold of exactly the actions `drain` assigns to the
    /// accepted bytes, starting from a state that differs from the
    /// initial one only in `token`'s decode buffer.
    pub fn on_client_readable(&mut self, token: usize, data: &[u8])
        requires
            old(self).wf(),
            old(self).live(token as int),
            data@.len() <= old(self).conn(token as int).spec_free(),
        ensures
            final(self).wf(),
            final(self).spec_conns().len() == old(self).spec_conns().len(),
            exists|mid: PubsubServer|
                #![trigger reads_decode_only(*old(self), mid, token as int)]
                reads_decode_only(*old(self), mid, token as int) && routed(
                    mid,
                    *final(self),
                    token as int,
                    drain(old(self).conn(token as int).residue() + data@).0,
                ),
    {
        let ghost pre = *old(self);
        let mut slot: Option<PubsubClient> = None;
        core::mem::swap(&mut slot, &mut self.connections[token]);
        let mut client: PubsubClient = match slot {
            Some(c) => c,
            None => {
                proof {
                    assert(false);
                }
                PubsubClient::new(token)
            },
        };
        proof {
            assert(pre.conn(token as int).steady());
        }
        let ghost r_init = client.residue() + data@;
        let mut actions: Vec<ClientAction> = client.read_actions(data);
        let ghost total = drain(r_init).0;
        proof {
            lemma_drain_reject_last(r_init);
            assert forall|j: int| 0 <= j < actions@.len() implies (!((#[trigger] actions@[j])
                is Nothing) && ((actions@[j] is Error) ==> j == actions@.len() - 1)) by {
                assert(actions@[j].spec_action() == Some(drain(r_init).0[j]));
                if actions@[j] is Error {
                    assert(drain(r_init).0[j] == SpecAction::Reject);
                }
            }
        }
        let mut back: Option<PubsubClient> = Some(client);
        core::mem::swap(&mut back, &mut self.connections[token]);
        proof {
            assert(self.spec_conns()[token as int] is Some);
            let c1 = self.spec_conns()[token as int]->0;
            assert(queue_at(self.spec_conns(), token as int) == queue_at(
                pre.spec_conns(),
                token as int,
            ));
            assert forall|i: int|
                0 <= i < pre.spec_conns().len() && i != token implies #[trigger] self.spec_conns()[
                i
            ] == pre.spec_conns()[i] by {}
            self.lemma_readable_wf(pre, token as int);
        }
        let ghost start = *self;
        proof {
            assert(reads_decode_only(pre, start, token as int));
            assert(total.take(0) =~= Seq::<SpecAction>::empty());
        }
        while actions.len() > 0
            invariant
                self.wf(),
                self.spec_conns().len() == old(self).spec_conns().len(),
                actions@.len() <= total.len(),
                forall|j: int|
                    0 <= j < actions@.len() ==> (#[trigger] actions@[j]).spec_action() == Some(
                        total[total.len() - actions@.len() + j],
                    ),
                routed(start, *self, token as int, total.take(total.len() - actions@.len())),
                forall|j: int|
                    0 <= j < actions@.len() ==> ((#[trigger] actions@[j]) is Error ==> j
                        == actions@.len() - 1),
                actions@.len() > 0 ==> self.live(token as int),
            decreases actions@.len(),
        {
            let ghost k = total.len() - actions@.len();
            let a: ClientAction = actions.remove(0);
            let ghost was_error = a is Error;
            let ghost n_before = actions@.len();
            let ghost mid = *self;
            let alive: bool = self.apply_action(token, a);
            proof {
                if n_before > 0 && !was_error {
                    assert(self.live(token as int));
                }
                assert(a.spec_action() == Some(total[k as int]));
                lemma_routed_snoc(
                    start,
                    mid,
                    *self,
                    token as int,
                    total.take(k as int),
                    total[k as int],
                );
                assert(total.take(k as int).push(total[k as int]) =~= total.take(k as int + 1));
            }
        }
        proof {
            assert(total.take(total.len() as int) =~= total);
            assert(old(self).conn(token as int).residue() + data@ == r_init);
            assert(routed(start, *self, token as int, drain(r_init).0));
        }
    }

    /// Putting a connection back whose queue and slot id are what the
    /// broker remembers restores the invariant: the read path touches
    /// only the decode side.
    proof fn lemma_readable_wf(&self, pre: PubsubServer, token: int)
        requires
            pre.wf(),
            pre.live(token),
            self.subscriptions == pre.subscriptions,
            self.pending_events == pre.pending_events,
            self.spec_conns().len() == pre.spec_conns().len(),
            forall|i: int|
                0 <= i < pre.spec_conns().len() && i != token ==> #[trigger] self.spec_conns()[i]
                    == pre.spec_conns()[i],
            self.live(token),
            self.conn(token).steady(),
            self.conn(token).spec_token() == token,
            self.conn(token).spec_queue() == pre.conn(token).spec_queue(),
            self.conn(token).spec_offset() == pre.conn(token).spec_offset(),
        ensures
            self.wf(),
    {
        let n = pre.spec_conns().len() as int;
        assert forall|i: int| 0 <= i < n implies queue_at(self.spec_conns(), i) == queue_at(
            pre.spec_conns(),
            i,
        ) by {}
        assert forall|id: EventId| #[trigger]
            self.spec_pending().contains_key(id) implies self.spec_pending()[id].remaining
            == total_count(self.spec_conns(), id, n) by {
            assert(pre.spec_pending().contains_key(id));
            lemma_total_count_ext(pre.spec_conns(), self.spec_conns(), id, n);
        }
        assert forall|i: int, k: int|
            self.live(i) && 0 <= k < self.queue(i).len() implies self.spec_pending().contains_key(
            #[trigger] self.queue(i)[k]) by {
            assert(pre.live(i));
            assert(pre.spec_pending().contains_key(pre.queue(i)[k]));
        }
        assert forall|t: Seq<char>, j: int|
            #![trigger self.spec_subs()[t][j]]
            self.spec_subs().contains_key(t) && 0 <= j < self.spec_subs()[t].len() implies
            self.live(self.spec_subs()[t][j] as int) by {
            assert(pre.live(pre.spec_subs()[t][j] as int));
        }
        assert forall|i: int| self.live(i) implies {
            &&& (#[trigger] self.conn(i)).steady()
            &&& self.conn(i).spec_token() == i
            &&& (self.queue(i).len() > 0 ==> self.conn(i).spec_offset() <= self.spec_pending()[
                self.queue(i)[0]
            ].data.len())
            &&& (self.queue(i).len() == 0 ==> self.conn(i).spec_offset() == 0)
        } by {
            assert(pre.live(i));
            assert(pre.conn(i).steady());
        }
    }
}


/// A routed run is read by peeling one effect at a time; this law
/// shows the pattern on the batch of one Subscribe followed by one
/// Unsubscribe of the same topic from the same connection, as one
/// read may deliver it: afterwards the connection is not among the
/// topic's subscribers, and a topic that had no other subscriber is
/// gone from the map altogether.
pub proof fn lemma_routed_subscribe_unsubscribe(
    pre: PubsubServer,
    post: PubsubServer,
    token: int,
    t: Seq<char>,
)
    requires
        routed(pre, post, token, seq![SpecAction::Subscribe(t), SpecAction::Unsubscribe(t)]),
    ensures
        post.spec_subs().contains_key(t) ==> !post.spec_subs()[t].contains(token as usize),
        !pre.spec_subs().contains_key(t) ==> !post.spec_subs().contains_key(t),
{
    let acts = seq![SpecAction::Subscribe(t), SpecAction::Unsubscribe(t)];
    let m1 = choose|m1: PubsubServer|
        #![trigger apply_effect(pre, m1, token, acts[0])]
        apply_effect(pre, m1, token, acts[0]) && routed(m1, post, token, acts.skip(1));
    assert(acts.skip(1)[0] == acts[1]);
    let m2 = choose|m2: PubsubServer|
        #![trigger apply_effect(m1, m2, token, acts.skip(1)[0])]
        apply_effect(m1, m2, token, acts.skip(1)[0]) && routed(
            m2,
            post,
            token,
            acts.skip(1).skip(1),
        );
    assert(acts.skip(1).skip(1) =~= Seq::<SpecAction>::empty());
    assert(post == m2);
    assert(m1.spec_subs() == spec_subscribe(pre.spec_subs(), t, token as usize));
    assert(m2.spec_subs() == spec_unsubscribe(m1.spec_subs(), t, token as usize));
    lemma_remove_conn(m1.spec_subs()[t], token as usize);
    if !pre.spec_subs().contains_key(t) {
        assert(m1.spec_subs()[t] == seq![token as usize]);
        assert(remove_conn(m1.spec_subs()[t], token as usize).len() == 0) by {
            lemma_remove_conn(m1.spec_subs()[t], token as usize);
            if remove_conn(m1.spec_subs()[t], token as usize).len() > 0 {
                let x = remove_conn(m1.spec_subs()[t], token as usize)[0];
                assert(remove_conn(m1.spec_subs()[t], token as usize).contains(x));
                assert(m1.spec_subs()[t].contains(x) && x != token as usize);
                let j = choose|j: int|
                    0 <= j < m1.spec_subs()[t].len() && m1.spec_subs()[t][j] == x;
            }
        }
    }
}

/// After a Subscribe of (topic, conn) with no intervening
/// Unsubscribe, the next Publish to the topic enqueues exactly one
/// Event on conn's write queue: the Subscribe makes `conn` a
/// subscriber, and `publish_event` pushes its fresh event id once
/// onto every subscriber's queue, so the id's count there goes from
/// zero to one. An intervening Unsubscribe takes `conn` out of the
/// subscriber set, and the fan-out passes it by. The subscriber may
/// be the publisher itself: the fan-out makes no exception for it.
pub proof fn lemma_subscribe_then_publish(
    m: Map<Seq<char>, Seq<usize>>,
    t: Seq<char>,
    conn: usize,
    q: Seq<EventId>,
    id: EventId,
)
    requires
        !q.contains(id),
    ensures
        spec_subscribe(m, t, conn).contains_key(t),
        spec_subscribe(m, t, conn)[t].contains(conn),
        count_in(q, id) == 0,
        count_in(q.push(id), id) == 1,
        spec_unsubscribe(spec_subscribe(m, t, conn), t, conn).contains_key(t)
            ==> !spec_unsubscribe(spec_subscribe(m, t, conn), t, conn)[t].contains(conn),
{
    lemma_count_contains(q, id);
    lemma_count_push(q, id, id);
    let m1 = spec_subscribe(m, t, conn);
    if m.contains_key(t) {
        if !m[t].contains(conn) {
            assert(m1[t] == m[t].push(conn));
            assert(m1[t][m[t].len() as int] == conn);
        }
    } else {
        assert(m1[t] == seq![conn]);
        assert(m1[t][0] == conn);
    }
    assert(m1[t].contains(conn));
    lemma_remove_conn(m1[t], conn);
}

} // verus!
