//! The table of pending outbound events.
//!
//! A publish encodes one `Event` frame and stores it here once,
//! tagged with the number of recipients still to drain it. Each
//! recipient holds only the `EventId`; when the last one finishes,
//! the entry is freed. The table's view is the map from live ids to
//! (encoded bytes, remaining recipients).

use vstd::prelude::*;

verus! {

/// The stable handle recipients hold in their write queues.
pub type EventId = u64;

/// One encoded outbound frame and the count of recipients that still
/// have to drain it.
pub struct Event {
    remaining_recipients: usize,
    data: Vec<u8>,
}

impl Event {
    pub closed spec fn spec_remaining(&self) -> nat {
        self.remaining_recipients as nat
    }

    pub closed spec fn spec_data(&self) -> Seq<u8> {
        self.data@
    }

    /// A fresh event starts with at least one recipient.
    pub fn new(data: Vec<u8>, recipients: usize) -> (r: Event)
        requires
            recipients >= 1,
        ensures
            r.spec_data() == data@,
            r.spec_remaining() == recipients,
    {
        Event { data, remaining_recipients: recipients }
    }

    /// The encoded frame bytes.
    pub fn data(&self) -> (r: &[u8])
        ensures
            r@ == self.spec_data(),
    {
        self.data.as_slice()
    }

    /// One recipient has drained the frame: count it off, handing
    /// back the number still outstanding, or `None` when this was the
    /// last one.
    pub fn remove_recipient(&mut self) -> (r: Option<usize>)
        requires
            old(self).spec_remaining() >= 1,
        ensures
            final(self).spec_remaining() == old(self).spec_remaining() - 1,
            final(self).spec_data() == old(self).spec_data(),
            r is Some <==> old(self).spec_remaining() > 1,
            r matches Some(n) ==> n == final(self).spec_remaining(),
    {
        self.remaining_recipients = self.remaining_recipients - 1;
        if self.remaining_recipients > 0 {
            Some(self.remaining_recipients)
        } else {
            None
        }
    }
}

/// What the table holds for one live id.
pub ghost struct EventInfo {
    pub data: Seq<u8>,
    pub remaining: nat,
}

/// The map an association list of events stands for.
pub open spec fn events_map(s: Seq<(EventId, Event)>) -> Map<EventId, EventInfo>
    decreases s.len(),
{
    if s.len() == 0 {
        Map::empty()
    } else {
        events_map(s.drop_last()).insert(
            s.last().0,
            EventInfo { data: s.last().1.spec_data(), remaining: s.last().1.spec_remaining() },
        )
    }
}

/// An id is in the map exactly when some entry carries it.
pub proof fn lemma_events_map_contains(s: Seq<(EventId, Event)>, id: EventId)
    ensures
        events_map(s).contains_key(id) <==> exists|i: int| 0 <= i < s.len() && s[i].0 == id,
    decreases s.len(),
{
    if s.len() > 0 {
        lemma_events_map_contains(s.drop_last(), id);
        if events_map(s).contains_key(id) {
            if s.last().0 == id {
                assert(s[s.len() - 1].0 == id);
            } else {
                let i = choose|i: int| 0 <= i < s.drop_last().len() && s.drop_last()[i].0 == id;
                assert(s[i].0 == id);
            }
        }
        if exists|i: int| 0 <= i < s.len() && s[i].0 == id {
            let i = choose|i: int| 0 <= i < s.len() && s[i].0 == id;
            if i < s.len() - 1 {
                assert(s.drop_last()[i].0 == id);
            }
        }
    }
}

/// With distinct ids, each entry is what the map holds for its id.
pub proof fn lemma_events_map_index(s: Seq<(EventId, Event)>, i: int)
    requires
        forall|j: int, k: int| 0 <= j < k < s.len() ==> s[j].0 != s[k].0,
        0 <= i < s.len(),
    ensures
        events_map(s).contains_key(s[i].0),
        events_map(s)[s[i].0] == (EventInfo {
            data: s[i].1.spec_data(),
            remaining: s[i].1.spec_remaining(),
        }),
    decreases s.len(),
{
    lemma_events_map_contains(s, s[i].0);
    if i < s.len() - 1 {
        assert(s.drop_last()[i] == s[i]);
        lemma_events_map_index(s.drop_last(), i);
        assert(s.last().0 != s[i].0);
    }
}

/// With distinct ids, removing one entry removes its id from the map.
pub proof fn lemma_events_map_remove(s: Seq<(EventId, Event)>, i: int)
    requires
        forall|j: int, k: int| 0 <= j < k < s.len() ==> s[j].0 != s[k].0,
        0 <= i < s.len(),
    ensures
        events_map(s.remove(i)) =~= events_map(s).remove(s[i].0),
    decreases s.len(),
{
    lemma_events_map_contains(s, s[i].0);
    if i == s.len() - 1 {
        assert(s.remove(i) =~= s.drop_last());
        lemma_events_map_contains(s.drop_last(), s[i].0);
        assert(!events_map(s.drop_last()).contains_key(s[i].0)) by {
            if events_map(s.drop_last()).contains_key(s[i].0) {
                let j = choose|j: int|
                    0 <= j < s.drop_last().len() && s.drop_last()[j].0 == s[i].0;
                assert(s[j].0 == s[i].0);
            }
        }
        assert(events_map(s).remove(s[i].0) =~= events_map(s.drop_last()));
    } else {
        assert(s.remove(i).drop_last() =~= s.drop_last().remove(i));
        assert(s.remove(i).last() == s.last());
        lemma_events_map_remove(s.drop_last(), i);
        assert(s.last().0 != s[i].0);
    }
}

/// With distinct ids, replacing one entry's event value updates the
/// map at its id.
pub proof fn lemma_events_map_update(s: Seq<(EventId, Event)>, i: int, e: Event)
    requires
        forall|j: int, k: int| 0 <= j < k < s.len() ==> s[j].0 != s[k].0,
        0 <= i < s.len(),
    ensures
        events_map(s.update(i, (s[i].0, e))) =~= events_map(s).insert(
            s[i].0,
            EventInfo { data: e.spec_data(), remaining: e.spec_remaining() },
        ),
    decreases s.len(),
{
    let t = s.update(i, (s[i].0, e));
    if i == s.len() - 1 {
        assert(t.drop_last() =~= s.drop_last());
    } else {
        assert(t.drop_last() =~= s.drop_last().update(i, (s[i].0, e)));
        assert(t.last() == s.last());
        lemma_events_map_update(s.drop_last(), i, e);
        assert(s.last().0 != s[i].0);
    }
}

/// What finishing one recipient of `id` does to the table's view:
/// count the recipient off, freeing the entry when it was the last;
/// a dead id changes nothing.
pub open spec fn release_one(m: Map<EventId, EventInfo>, id: EventId) -> Map<EventId, EventInfo> {
    if !m.contains_key(id) {
        m
    } else if m[id].remaining > 1 {
        m.insert(id, EventInfo { data: m[id].data, remaining: (m[id].remaining - 1) as nat })
    } else {
        m.remove(id)
    }
}

/// Releasing a whole queue of ids, head first.
pub open spec fn release_all(m: Map<EventId, EventInfo>, q: Seq<EventId>) -> Map<
    EventId,
    EventInfo,
>
    decreases q.len(),
{
    if q.len() == 0 {
        m
    } else {
        release_all(release_one(m, q[0]), q.skip(1))
    }
}

/// Reference-counted storage of encoded outbound frames, keyed by a
/// monotonically assigned id.
pub struct PendingEvents {
    events: Vec<(EventId, Event)>,
    id_counter: EventId,
}

impl View for PendingEvents {
    type V = Map<EventId, EventInfo>;

    closed spec fn view(&self) -> Map<EventId, EventInfo> {
        events_map(self.events@)
    }
}

impl PendingEvents {
    /// The next id to be handed out; all live ids are below it.
    pub closed spec fn spec_id_counter(&self) -> EventId {
        self.id_counter
    }

    /// Ids are distinct, all below the counter, and no entry has run
    /// out of recipients without being freed.
    pub closed spec fn wf(&self) -> bool {
        &&& forall|j: int, k: int|
            0 <= j < k < self.events@.len() ==> (#[trigger] self.events@[j]).0 != (
            #[trigger] self.events@[k]).0
        &&& forall|j: int|
            0 <= j < self.events@.len() ==> ((#[trigger] self.events@[j]).1.spec_remaining() >= 1
                && self.events@[j].0 < self.id_counter)
    }

    /// Every live entry keeps at least one outstanding recipient.
    pub proof fn lemma_live_events_have_recipients(&self, id: EventId)
        requires
            self.wf(),
            self@.contains_key(id),
        ensures
            self@[id].remaining >= 1,
            id < self.spec_id_counter(),
    {
        lemma_events_map_contains(self.events@, id);
        let i = choose|i: int| 0 <= i < self.events@.len() && self.events@[i].0 == id;
        lemma_events_map_index(self.events@, i);
    }

    /// The id the next stored event will get.
    pub fn id_counter(&self) -> (r: EventId)
        ensures
            r == self.spec_id_counter(),
    {
        self.id_counter
    }

    pub fn new() -> (r: PendingEvents)
        ensures
            r@ =~= Map::<EventId, EventInfo>::empty(),
            r.wf(),
            r.spec_id_counter() == 1,
    {
        PendingEvents { events: Vec::new(), id_counter: 1 }
    }

    /// Store an encoded frame for `recipients` recipients under a
    /// fresh id and hand the id back.
    pub fn add_event(&mut self, data: Vec<u8>, recipients: usize) -> (r: EventId)
        requires
            old(self).wf(),
            recipients >= 1,
            old(self).spec_id_counter() < EventId::MAX,
        ensures
            final(self).wf(),
            r == old(self).spec_id_counter(),
            !old(self)@.contains_key(r),
            final(self)@ =~= old(self)@.insert(
                r,
                EventInfo { data: data@, remaining: recipients as nat },
            ),
            final(self).spec_id_counter() == old(self).spec_id_counter() + 1,
    {
        let event_id: EventId = self.id_counter;
        proof {
            lemma_events_map_contains(self.events@, event_id);
        }
        self.id_counter = self.id_counter + 1;
        self.events.push((event_id, Event::new(data, recipients)));
        proof {
            let s = self.events@;
            let s0 = old(self).events@;
            assert(s.drop_last() =~= s0);
            assert(!old(self)@.contains_key(event_id)) by {
                if old(self)@.contains_key(event_id) {
                    let i = choose|i: int| 0 <= i < s0.len() && s0[i].0 == event_id;
                    assert(s0[i].0 < event_id);
                }
            }
            assert forall|j: int, k: int| 0 <= j < k < s.len() implies (#[trigger] s[j]).0 != (
            #[trigger] s[k]).0 by {
                if k < s.len() - 1 {
                    assert(s[j] == s0[j] && s[k] == s0[k]);
                } else {
                    assert(s[j] == s0[j]);
                    assert(s0[j].0 < event_id);
                }
            }
            assert forall|j: int| 0 <= j < s.len() implies ((#[trigger] s[j]).1.spec_remaining()
                >= 1 && s[j].0 < self.id_counter) by {
                if j < s.len() - 1 {
                    assert(s[j] == s0[j]);
                }
            }
        }
        event_id
    }

    /// The encoded bytes of a live event, or nothing for a dead id.
    pub fn get_event_data(&self, event_id: EventId) -> (r: Option<&[u8]>)
        requires
            self.wf(),
        ensures
            r is Some <==> self@.contains_key(event_id),
            r matches Some(d) ==> d@ == self@[event_id].data,
    {
        proof {
            lemma_events_map_contains(self.events@, event_id);
        }
        let mut i: usize = 0;
        while i < self.events.len()
            invariant
                i <= self.events@.len(),
                forall|j: int| 0 <= j < i ==> self.events@[j].0 != event_id,
                self.wf(),
            decreases self.events@.len() - i,
        {
            if self.events[i].0 == event_id {
                proof {
                    lemma_events_map_index(self.events@, i as int);
                }
                return Some(self.events[i].1.data());
            }
            i = i + 1;
        }
        None
    }

    /// One recipient of `event_id` is done: count it off, and free
    /// the entry when it was the last. A dead id is ignored.
    pub fn finish_event(&mut self, event_id: EventId)
        requires
            old(self).wf(),
        ensures
            final(self).wf(),
            final(self).spec_id_counter() == old(self).spec_id_counter(),
            !old(self)@.contains_key(event_id) ==> final(self)@ =~= old(self)@,
            old(self)@.contains_key(event_id) && old(self)@[event_id].remaining > 1
                ==> final(self)@ =~= old(self)@.insert(
                event_id,
                EventInfo {
                    data: old(self)@[event_id].data,
                    remaining: (old(self)@[event_id].remaining - 1) as nat,
                },
            ),
            old(self)@.contains_key(event_id) && old(self)@[event_id].remaining == 1
                ==> final(self)@ =~= old(self)@.remove(event_id),
    {
        proof {
            lemma_events_map_contains(self.events@, event_id);
        }
        let ghost s0 = self.events@;
        let mut i: usize = 0;
        while i < self.events.len()
            invariant
                i <= self.events@.len(),
                forall|j: int| 0 <= j < i ==> (#[trigger] self.events@[j]).0 != event_id,
                self.wf(),
                self.events@ == s0,
                self.events@ == old(self).events@,
                self.id_counter == old(self).id_counter,
            decreases self.events@.len() - i,
        {
            if self.events[i].0 == event_id {
                proof {
                    lemma_events_map_index(self.events@, i as int);
                }
                match self.events.remove(i) {
                    (id0, mut ev) => {
                        let keep: Option<usize> = ev.remove_recipient();
                        match keep {
                            Some(_) => {
                                self.events.insert(i, (id0, ev));
                                proof {
                                    assert(self.events@ =~= s0.update(i as int, (id0, ev)));
                                    lemma_events_map_update(s0, i as int, ev);
                                }
                            },
                            None => {
                                proof {
                                    lemma_events_map_remove(s0, i as int);
                                }
                            },
                        }
                    },
                }
                return ;
            }
            i = i + 1;
        }
    }
}

} // verus!
