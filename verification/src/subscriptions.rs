//! The subscription table: topic name to the set of subscribed
//! connections.
//!
//! Subscribing twice is idempotent, unsubscribing a non-subscriber is
//! a no-op, and a topic whose last subscriber leaves is dropped, so
//! every topic in the map has at least one subscriber. The view keeps
//! the subscribers of a topic in subscription order; the order only
//! fixes fan-out order, membership is what the broker relies on.

use vstd::prelude::*;

verus! {

/// A subscriber list with one connection taken out.
pub open spec fn remove_conn(l: Seq<usize>, conn: usize) -> Seq<usize>
    decreases l.len(),
{
    if l.len() == 0 {
        Seq::<usize>::empty()
    } else if l[0] == conn {
        remove_conn(l.skip(1), conn)
    } else {
        seq![l[0]] + remove_conn(l.skip(1), conn)
    }
}

/// Membership and length facts about `remove_conn`: exactly `conn`
/// disappears, everything else stays.
pub proof fn lemma_remove_conn(l: Seq<usize>, conn: usize)
    ensures
        forall|c: usize| #[trigger] remove_conn(l, conn).contains(c) <==> (l.contains(c) && c
            != conn),
        remove_conn(l, conn).len() <= l.len(),
    decreases l.len(),
{
    if l.len() > 0 {
        lemma_remove_conn(l.skip(1), conn);
        assert forall|c: usize| #[trigger] remove_conn(l, conn).contains(c) implies (l.contains(c)
            && c != conn) by {
            if l[0] != conn && remove_conn(l, conn)[0] == c {
                assert(l[0] == c);
            } else {
                let r = remove_conn(l, conn);
                let i = choose|i: int| 0 <= i < r.len() && r[i] == c;
                if l[0] != conn {
                    assert(remove_conn(l.skip(1), conn)[i - 1] == c);
                    assert(remove_conn(l.skip(1), conn).contains(c));
                } else {
                    assert(remove_conn(l.skip(1), conn).contains(c));
                }
                assert(l.skip(1).contains(c));
                let j = choose|j: int| 0 <= j < l.skip(1).len() && l.skip(1)[j] == c;
                assert(l[j + 1] == c);
            }
        }
        assert forall|c: usize| l.contains(c) && c != conn implies #[trigger] remove_conn(
            l,
            conn,
        ).contains(c) by {
            let i = choose|i: int| 0 <= i < l.len() && l[i] == c;
            if i == 0 {
                assert(remove_conn(l, conn)[0] == c);
            } else {
                assert(l.skip(1)[i - 1] == c);
                assert(l.skip(1).contains(c));
                assert(remove_conn(l.skip(1), conn).contains(c));
                let j = choose|j: int|
                    0 <= j < remove_conn(l.skip(1), conn).len() && remove_conn(l.skip(1), conn)[j]
                        == c;
                if l[0] == conn {
                    assert(remove_conn(l, conn)[j] == c);
                } else {
                    assert(remove_conn(l, conn)[j + 1] == c);
                }
            }
        }
    }
}

/// Taking a connection out keeps the remaining entries distinct.
pub proof fn lemma_remove_conn_distinct(l: Seq<usize>, conn: usize)
    requires
        forall|a: int, b: int| 0 <= a < b < l.len() ==> l[a] != l[b],
    ensures
        forall|a: int, b: int|
            0 <= a < b < remove_conn(l, conn).len() ==> remove_conn(l, conn)[a] != remove_conn(
                l,
                conn,
            )[b],
    decreases l.len(),
{
    if l.len() > 0 {
        assert forall|a: int, b: int| 0 <= a < b < l.skip(1).len() implies l.skip(1)[a] != l.skip(
            1,
        )[b] by {
            assert(l.skip(1)[a] == l[a + 1] && l.skip(1)[b] == l[b + 1]);
        }
        lemma_remove_conn_distinct(l.skip(1), conn);
        lemma_remove_conn(l.skip(1), conn);
        if l[0] != conn {
            let r = remove_conn(l, conn);
            let rt = remove_conn(l.skip(1), conn);
            assert forall|a: int, b: int| 0 <= a < b < r.len() implies r[a] != r[b] by {
                if a == 0 {
                    assert(r[b] == rt[b - 1]);
                    assert(rt.contains(rt[b - 1]));
                    assert(l.skip(1).contains(rt[b - 1]));
                    if r[a] == r[b] {
                        let w = choose|w: int|
                            0 <= w < l.skip(1).len() && l.skip(1)[w] == rt[b - 1];
                        assert(l[w + 1] == l[0]);
                    }
                } else {
                    assert(r[a] == rt[a - 1] && r[b] == rt[b - 1]);
                }
            }
        }
    }
}

/// The map an association list of topics stands for.
pub open spec fn topics_map(s: Seq<(String, Vec<usize>)>) -> Map<Seq<char>, Seq<usize>>
    decreases s.len(),
{
    if s.len() == 0 {
        Map::empty()
    } else {
        topics_map(s.drop_last()).insert(s.last().0@, s.last().1@)
    }
}

/// A topic is in the map exactly when some entry carries it.
pub proof fn lemma_topics_map_contains(s: Seq<(String, Vec<usize>)>, t: Seq<char>)
    ensures
        topics_map(s).contains_key(t) <==> exists|i: int| 0 <= i < s.len() && s[i].0@ == t,
    decreases s.len(),
{
    if s.len() > 0 {
        lemma_topics_map_contains(s.drop_last(), t);
        if topics_map(s).contains_key(t) {
            if s.last().0@ == t {
                assert(s[s.len() - 1].0@ == t);
            } else {
                let i = choose|i: int| 0 <= i < s.drop_last().len() && s.drop_last()[i].0@ == t;
                assert(s[i].0@ == t);
            }
        }
        if exists|i: int| 0 <= i < s.len() && s[i].0@ == t {
            let i = choose|i: int| 0 <= i < s.len() && s[i].0@ == t;
            if i < s.len() - 1 {
                assert(s.drop_last()[i].0@ == t);
            }
        }
    }
}

/// With distinct topics, each entry is what the map holds for its
/// topic.
pub proof fn lemma_topics_map_index(s: Seq<(String, Vec<usize>)>, i: int)
    requires
        forall|j: int, k: int| 0 <= j < k < s.len() ==> s[j].0@ != s[k].0@,
        0 <= i < s.len(),
    ensures
        topics_map(s).contains_key(s[i].0@),
        topics_map(s)[s[i].0@] == s[i].1@,
    decreases s.len(),
{
    lemma_topics_map_contains(s, s[i].0@);
    if i < s.len() - 1 {
        assert(s.drop_last()[i] == s[i]);
        lemma_topics_map_index(s.drop_last(), i);
        assert(s.last().0@ != s[i].0@);
    }
}

/// With distinct topics, removing one entry removes its topic from
/// the map.
pub proof fn lemma_topics_map_remove(s: Seq<(String, Vec<usize>)>, i: int)
    requires
        forall|j: int, k: int| 0 <= j < k < s.len() ==> s[j].0@ != s[k].0@,
        0 <= i < s.len(),
    ensures
        topics_map(s.remove(i)) =~= topics_map(s).remove(s[i].0@),
    decreases s.len(),
{
    lemma_topics_map_contains(s, s[i].0@);
    if i == s.len() - 1 {
        assert(s.remove(i) =~= s.drop_last());
        lemma_topics_map_contains(s.drop_last(), s[i].0@);
        assert(!topics_map(s.drop_last()).contains_key(s[i].0@)) by {
            if topics_map(s.drop_last()).contains_key(s[i].0@) {
                let j = choose|j: int|
                    0 <= j < s.drop_last().len() && s.drop_last()[j].0@ == s[i].0@;
                assert(s[j].0@ == s[i].0@);
            }
        }
        assert(topics_map(s).remove(s[i].0@) =~= topics_map(s.drop_last()));
    } else {
        assert(s.remove(i).drop_last() =~= s.drop_last().remove(i));
        assert(s.remove(i).last() == s.last());
        lemma_topics_map_remove(s.drop_last(), i);
        assert(s.last().0@ != s[i].0@);
    }
}

/// With distinct topics, replacing one entry's subscriber list
/// updates the map at its topic.
pub proof fn lemma_topics_map_update(s: Seq<(String, Vec<usize>)>, i: int, l: Vec<usize>)
    requires
        forall|j: int, k: int| 0 <= j < k < s.len() ==> s[j].0@ != s[k].0@,
        0 <= i < s.len(),
    ensures
        topics_map(s.update(i, (s[i].0, l))) =~= topics_map(s).insert(s[i].0@, l@),
    decreases s.len(),
{
    let t = s.update(i, (s[i].0, l));
    if i == s.len() - 1 {
        assert(t.drop_last() =~= s.drop_last());
    } else {
        assert(t.drop_last() =~= s.drop_last().update(i, (s[i].0, l)));
        assert(t.last() == s.last());
        lemma_topics_map_update(s.drop_last(), i, l);
        assert(s.last().0@ != s[i].0@);
    }
}

/// Topic name to subscriber connections, with no empty topics.
pub struct SubscriptionMap {
    entries: Vec<(String, Vec<usize>)>,
}

impl View for SubscriptionMap {
    type V = Map<Seq<char>, Seq<usize>>;

    closed spec fn view(&self) -> Map<Seq<char>, Seq<usize>> {
        topics_map(self.entries@)
    }
}

/// What a subscribe does to the map: add the connection to the
/// topic's list unless it is already there, creating the topic if
/// need be.
pub open spec fn spec_subscribe(
    m: Map<Seq<char>, Seq<usize>>,
    t: Seq<char>,
    conn: usize,
) -> Map<Seq<char>, Seq<usize>> {
    if m.contains_key(t) {
        if m[t].contains(conn) {
            m
        } else {
            m.insert(t, m[t].push(conn))
        }
    } else {
        m.insert(t, seq![conn])
    }
}

/// What an unsubscribe does to the map: take the connection out of
/// the topic's list, dropping the topic when that empties it.
pub open spec fn spec_unsubscribe(
    m: Map<Seq<char>, Seq<usize>>,
    t: Seq<char>,
    conn: usize,
) -> Map<Seq<char>, Seq<usize>> {
    if !m.contains_key(t) {
        m
    } else {
        let l = remove_conn(m[t], conn);
        if l.len() == 0 {
            m.remove(t)
        } else {
            m.insert(t, l)
        }
    }
}

impl SubscriptionMap {
    /// Topics are distinct, subscriber lists have no duplicates, and
    /// no topic's list is empty.
    pub closed spec fn wf(&self) -> bool {
        &&& forall|j: int, k: int|
            0 <= j < k < self.entries@.len() ==> (#[trigger] self.entries@[j]).0@ != (
            #[trigger] self.entries@[k]).0@
        &&& forall|i: int|
            0 <= i < self.entries@.len() ==> (#[trigger] self.entries@[i]).1@.len() >= 1
        &&& forall|i: int, j: int, k: int|
            0 <= i < self.entries@.len() && 0 <= j < k < self.entries@[i].1@.len() ==> #[trigger] (
            self.entries@[i].1@[j]) != #[trigger] (self.entries@[i].1@[k])
    }

    /// Every topic in the map keeps a non-empty, duplicate-free
    /// subscriber list.
    pub proof fn lemma_topics_nonempty(&self, t: Seq<char>)
        requires
            self.wf(),
            self@.contains_key(t),
        ensures
            self@[t].len() >= 1,
            forall|j: int, k: int| 0 <= j < k < self@[t].len() ==> self@[t][j] != self@[t][k],
    {
        lemma_topics_map_contains(self.entries@, t);
        let i = choose|i: int| 0 <= i < self.entries@.len() && self.entries@[i].0@ == t;
        lemma_topics_map_index(self.entries@, i);
    }

    pub fn new() -> (r: SubscriptionMap)
        ensures
            r@ =~= Map::<Seq<char>, Seq<usize>>::empty(),
            r.wf(),
    {
        SubscriptionMap { entries: Vec::new() }
    }

    /// Register `conn` as a subscriber of `topic`; idempotent.
    pub fn subscribe(&mut self, topic: String, conn: usize)
        requires
            old(self).wf(),
        ensures
            final(self).wf(),
            final(self)@ =~= spec_subscribe(old(self)@, topic@, conn),
    {
        let ghost s0 = self.entries@;
        proof {
            lemma_topics_map_contains(s0, topic@);
        }
        let mut i: usize = 0;
        while i < self.entries.len()
            invariant
                i <= self.entries@.len(),
                forall|j: int| 0 <= j < i ==> (#[trigger] self.entries@[j]).0@ != topic@,
                self.wf(),
                self.entries@ == s0,
                s0 == old(self).entries@,
            decreases self.entries@.len() - i,
        {
            if self.entries[i].0 == topic {
                proof {
                    lemma_topics_map_index(s0, i as int);
                }
                let list: &Vec<usize> = &self.entries[i].1;
                let mut k: usize = 0;
                let mut found: bool = false;
                while k < list.len()
                    invariant
                        k <= list@.len(),
                        found <==> exists|j: int| 0 <= j < k && list@[j] == conn,
                    decreases list@.len() - k,
                {
                    if list[k] == conn {
                        found = true;
                    }
                    k = k + 1;
                }
                if found {
                    proof {
                        let j = choose|j: int| 0 <= j < k && list@[j] == conn;
                        assert(s0[i as int].1@[j] == conn);
                        assert(s0[i as int].1@.contains(conn));
                        assert(self@[topic@].contains(conn));
                    }
                    return ;
                }
                proof {
                    assert(k == list@.len());
                    assert(!s0[i as int].1@.contains(conn)) by {
                        if s0[i as int].1@.contains(conn) {
                            let j = choose|j: int|
                                0 <= j < s0[i as int].1@.len() && s0[i as int].1@[j] == conn;
                            assert(list@[j] == conn);
                        }
                    }
                }
                match self.entries.remove(i) {
                    (name, mut list) => {
                        list.push(conn);
                        self.entries.insert(i, (name, list));
                        proof {
                            assert(self.entries@ =~= s0.update(
                                i as int,
                                (s0[i as int].0, self.entries@[i as int].1),
                            ));
                            lemma_topics_map_update(
                                s0,
                                i as int,
                                self.entries@[i as int].1,
                            );
                        }
                        return ;
                    },
                }
            }
            i = i + 1;
        }
        let mut list: Vec<usize> = Vec::new();
        list.push(conn);
        self.entries.push((topic, list));
        proof {
            let s = self.entries@;
            assert(s.drop_last() =~= s0);
            assert forall|j: int, k: int| 0 <= j < k < s.len() implies (#[trigger] s[j]).0@ != (
            #[trigger] s[k]).0@ by {
                if k < s.len() - 1 {
                    assert(s[j] == s0[j] && s[k] == s0[k]);
                } else {
                    assert(s[j] == s0[j]);
                }
            }
        }
    }

    /// Take `conn` out of `topic`'s subscribers; a topic left without
    /// subscribers disappears. Unsubscribing a non-subscriber, or
    /// from an unknown topic, changes nothing.
    pub fn unsubscribe(&mut self, topic: &String, conn: usize)
        requires
            old(self).wf(),
        ensures
            final(self).wf(),
            final(self)@ =~= spec_unsubscribe(old(self)@, topic@, conn),
    {
        let ghost s0 = self.entries@;
        proof {
            lemma_topics_map_contains(s0, topic@);
        }
        let mut i: usize = 0;
        while i < self.entries.len()
            invariant
                i <= self.entries@.len(),
                forall|j: int| 0 <= j < i ==> (#[trigger] self.entries@[j]).0@ != topic@,
                self.wf(),
                self.entries@ == s0,
                s0 == old(self).entries@,
            decreases self.entries@.len() - i,
        {
            if self.entries[i].0 == *topic {
                proof {
                    lemma_topics_map_index(s0, i as int);
                }
                match self.entries.remove(i) {
                    (name, list) => {
                        let mut filtered: Vec<usize> = Vec::new();
                        let mut k: usize = 0;
                        proof {
                            assert(list@.skip(0) =~= list@);
                            assert(Seq::<usize>::empty() + remove_conn(list@, conn)
                                =~= remove_conn(list@, conn));
                        }
                        while k < list.len()
                            invariant
                                k <= list@.len(),
                                remove_conn(list@, conn) == filtered@ + remove_conn(
                                    list@.skip(k as int),
                                    conn,
                                ),
                            decreases list@.len() - k,
                        {
                            let ghost fpre = filtered@;
                            let ghost rest = list@.skip(k as int);
                            if list[k] != conn {
                                filtered.push(list[k]);
                            }
                            k = k + 1;
                            proof {
                                assert(rest[0] == list@[k - 1]);
                                assert(rest.skip(1) =~= list@.skip(k as int));
                                if list@[k - 1] != conn {
                                    assert(remove_conn(rest, conn) =~= seq![rest[0]]
                                        + remove_conn(rest.skip(1), conn));
                                    assert(filtered@ + remove_conn(list@.skip(k as int), conn)
                                        =~= fpre + remove_conn(rest, conn));
                                } else {
                                    assert(remove_conn(rest, conn) == remove_conn(
                                        rest.skip(1),
                                        conn,
                                    ));
                                }
                            }
                        }
                        proof {
                            assert(list@.skip(list@.len() as int) =~= Seq::<usize>::empty());
                            assert(filtered@ + Seq::<usize>::empty() =~= filtered@);
                            assert(remove_conn(list@, conn) == filtered@);
                            lemma_remove_conn_distinct(list@, conn);
                            lemma_remove_conn(list@, conn);
                            lemma_topics_map_remove(s0, i as int);
                        }
                        if filtered.len() > 0 {
                            self.entries.insert(i, (name, filtered));
                            proof {
                                assert(self.entries@ =~= s0.update(
                                    i as int,
                                    (s0[i as int].0, self.entries@[i as int].1),
                                ));
                                lemma_topics_map_update(s0, i as int, self.entries@[i as int].1);
                            }
                        }
                        return ;
                    },
                }
            }
            i = i + 1;
        }
    }

    /// The subscribers of `topic`, in subscription order; empty for
    /// an unknown topic.
    pub fn subscribers(&self, topic: &String) -> (r: Vec<usize>)
        requires
            self.wf(),
        ensures
            self@.contains_key(topic@) ==> r@ == self@[topic@],
            !self@.contains_key(topic@) ==> r@ == Seq::<usize>::empty(),
    {
        proof {
            lemma_topics_map_contains(self.entries@, topic@);
        }
        let mut i: usize = 0;
        while i < self.entries.len()
            invariant
                i <= self.entries@.len(),
                forall|j: int| 0 <= j < i ==> (#[trigger] self.entries@[j]).0@ != topic@,
                self.wf(),
            decreases self.entries@.len() - i,
        {
            if self.entries[i].0 == *topic {
                proof {
                    lemma_topics_map_index(self.entries@, i as int);
                }
                let list: &Vec<usize> = &self.entries[i].1;
                let mut out: Vec<usize> = Vec::new();
                let mut k: usize = 0;
                while k < list.len()
                    invariant
                        k <= list@.len(),
                        out@ == list@.subrange(0, k as int),
                    decreases list@.len() - k,
                {
                    out.push(list[k]);
                    k = k + 1;
                    proof {
                        assert(out@ =~= list@.subrange(0, k as int));
                    }
                }
                proof {
                    assert(list@.subrange(0, list@.len() as int) =~= list@);
                }
                return out;
            }
            i = i + 1;
        }
        Vec::new()
    }

    /// On a connection's close: take it out of every topic, dropping
    /// topics it was the last subscriber of.
    pub fn remove_connection(&mut self, conn: usize)
        requires
            old(self).wf(),
        ensures
            final(self).wf(),
            forall|t: Seq<char>|
                #[trigger] final(self)@.contains_key(t) <==> (old(self)@.contains_key(t)
                    && remove_conn(old(self)@[t], conn).len() > 0),
            forall|t: Seq<char>|
                final(self)@.contains_key(t) ==> #[trigger] final(self)@[t] == remove_conn(
                    old(self)@[t],
                    conn,
                ),
    {
        let ghost s0 = self.entries@;
        let ghost m0 = self@;
        let mut topics: Vec<String> = Vec::new();
        let mut i: usize = 0;
        while i < self.entries.len()
            invariant
                i <= self.entries@.len(),
                self.entries@ == s0,
                s0 == old(self).entries@,
                self.wf(),
                topics@.len() == i,
                forall|a: int| 0 <= a < i ==> (#[trigger] topics@[a])@ == s0[a].0@,
            decreases self.entries@.len() - i,
        {
            let name: String = self.entries[i].0.clone();
            topics.push(name);
            i = i + 1;
        }
        proof {
            assert forall|t: Seq<char>| m0.contains_key(t) implies exists|a: int|
                0 <= a < topics@.len() && (#[trigger] topics@[a])@ == t by {
                lemma_topics_map_contains(s0, t);
                let b = choose|b: int| 0 <= b < s0.len() && s0[b].0@ == t;
                assert(topics@[b]@ == t);
            }
            assert forall|t: Seq<char>| #[trigger] self@.contains_key(t) implies m0.contains_key(
                t,
            ) by {}
            assert forall|a: int| 0 <= a < topics@.len() implies (
            #[trigger] self@.contains_key(topics@[a]@) && self@[topics@[a]@]
                == m0[topics@[a]@]) by {
                lemma_topics_map_index(s0, a);
            }
        }
        let mut j: usize = 0;
        while j < topics.len()
            invariant
                j <= topics@.len(),
                self.wf(),
                m0 == topics_map(s0),
                forall|a: int, b: int|
                    0 <= a < b < s0.len() ==> (#[trigger] s0[a]).0@ != (#[trigger] s0[b]).0@,
                topics@.len() == s0.len(),
                forall|a: int| 0 <= a < topics@.len() ==> (#[trigger] topics@[a])@ == s0[a].0@,
                forall|a: int, b: int|
                    0 <= a < b < topics@.len() ==> (#[trigger] topics@[a])@ != (
                #[trigger] topics@[b])@,
                forall|t: Seq<char>| m0.contains_key(t) ==> exists|a: int|
                    0 <= a < topics@.len() && (#[trigger] topics@[a])@ == t,
                forall|t: Seq<char>| #[trigger] self@.contains_key(t) ==> m0.contains_key(t),
                forall|a: int|
                    0 <= a < j ==> (#[trigger] self@.contains_key(topics@[a]@) <==> remove_conn(
                        m0[topics@[a]@],
                        conn,
                    ).len() > 0),
                forall|a: int|
                    0 <= a < j && self@.contains_key((#[trigger] topics@[a])@)
                        ==> self@[topics@[a]@] == remove_conn(m0[topics@[a]@], conn),
                forall|a: int|
                    j <= a < topics@.len() ==> (#[trigger] self@.contains_key(topics@[a]@)
                        && self@[topics@[a]@] == m0[topics@[a]@]),
            decreases topics@.len() - j,
        {
            let ghost mpre = self@;
            let topic: &String = &topics[j];
            proof {
                assert(s0[j as int].0@ == topic@);
                lemma_topics_map_index(s0, j as int);
                assert(m0.contains_key(topic@));
                assert(mpre.contains_key(topic@) && mpre[topic@] == m0[topic@]);
            }
            self.unsubscribe(topic, conn);
            proof {
                lemma_remove_conn_absent(m0[topic@], conn);
                assert forall|a: int| j + 1 <= a < topics@.len() implies (
                #[trigger] self@.contains_key(topics@[a]@) && self@[topics@[a]@]
                    == m0[topics@[a]@]) by {
                    assert(topics@[a]@ != topics@[j as int]@);
                    assert(mpre.contains_key(topics@[a]@) && mpre[topics@[a]@]
                        == m0[topics@[a]@]);
                }
            }
            j = j + 1;
        }
        proof {
            assert forall|t: Seq<char>| #[trigger] self@.contains_key(t) implies (m0.contains_key(
                t,
            ) && remove_conn(m0[t], conn).len() > 0 && self@[t] == remove_conn(m0[t], conn)) by {
                let a = choose|a: int| 0 <= a < topics@.len() && (#[trigger] topics@[a])@ == t;
                assert(self@.contains_key(topics@[a]@));
            }
            assert forall|t: Seq<char>|
                m0.contains_key(t) && remove_conn(m0[t], conn).len() > 0 implies
                #[trigger] self@.contains_key(t) by {
                let a = choose|a: int| 0 <= a < topics@.len() && (#[trigger] topics@[a])@ == t;
                assert(self@.contains_key(topics@[a]@) <==> remove_conn(m0[topics@[a]@], conn).len()
                    > 0);
            }
        }
    }
}

/// Taking a connection out of a list it is not in changes nothing.
pub proof fn lemma_remove_conn_absent(l: Seq<usize>, conn: usize)
    ensures
        !l.contains(conn) ==> remove_conn(l, conn) =~= l,
    decreases l.len(),
{
    if l.len() > 0 && !l.contains(conn) {
        assert(l[0] != conn);
        assert(!l.skip(1).contains(conn)) by {
            if l.skip(1).contains(conn) {
                let i = choose|i: int| 0 <= i < l.skip(1).len() && l.skip(1)[i] == conn;
                assert(l[i + 1] == conn);
            }
        }
        lemma_remove_conn_absent(l.skip(1), conn);
        assert(seq![l[0]] + l.skip(1) =~= l);
    }
}

} // verus!
