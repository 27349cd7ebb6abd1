//! The broker: sole owner of the peer registry and of every peer's outbound
//! queue. Registration, deregistration, routing and the writers' draining
//! all go through it one at a time.

use vstd::prelude::*;
use crate::parse::RoutingRequest;
use crate::text::{chars_of, same_chars};

verus! {

/// One peer's outbound queue, together with the name it was registered under.
struct Channel {
    id: u64,
    name: Vec<char>,
    pending: Vec<String>,
    open: bool,
}

/// The mathematical content of an outbound queue.
pub struct ChannelView {
    pub id: u64,
    pub name: Seq<char>,
    pub pending: Seq<Seq<char>>,
    pub open: bool,
}

impl View for Channel {
    type V = ChannelView;

    closed spec fn view(&self) -> ChannelView {
        ChannelView {
            id: self.id,
            name: self.name@,
            pending: self.pending@.map_values(|m: String| m@),
            open: self.open,
        }
    }
}

/// The mathematical content of a broker: its queues in order of registration,
/// the identifier the next registration gets, and whether it still takes
/// registrations.
pub struct BrokerView {
    pub channels: Seq<ChannelView>,
    pub next_id: u64,
    pub accepting: bool,
}

/// `c` is open and registered under `n`: a message to `n` lands in it.
pub open spec fn serves(c: ChannelView, n: Seq<char>) -> bool {
    c.open && c.name == n
}

/// The queues with those registered under `n` closed.
pub open spec fn close_named(cs: Seq<ChannelView>, n: Seq<char>) -> Seq<ChannelView> {
    cs.map_values(
        |c: ChannelView|
            if c.name == n {
                ChannelView { id: c.id, name: c.name, pending: c.pending, open: false }
            } else {
                c
            },
    )
}

/// The queues, all closed.
pub open spec fn close_all(cs: Seq<ChannelView>) -> Seq<ChannelView> {
    cs.map_values(
        |c: ChannelView| ChannelView { id: c.id, name: c.name, pending: c.pending, open: false },
    )
}

/// The queues after `body` is sent to the name `n`.
pub open spec fn deliver(cs: Seq<ChannelView>, n: Seq<char>, body: Seq<char>) -> Seq<ChannelView> {
    cs.map_values(
        |c: ChannelView|
            if serves(c, n) {
                ChannelView { id: c.id, name: c.name, pending: c.pending.push(body), open: c.open }
            } else {
                c
            },
    )
}

/// The queues after `body` is sent to each of `dests` in turn.
pub open spec fn route_all(cs: Seq<ChannelView>, dests: Seq<Seq<char>>, body: Seq<char>) -> Seq<
    ChannelView,
>
    decreases dests.len(),
{
    if dests.len() == 0 {
        cs
    } else {
        deliver(route_all(cs, dests.drop_last(), body), dests.last(), body)
    }
}

/// The identifier of the open queue registered under `n`, if there is one.
pub open spec fn open_id(cs: Seq<ChannelView>, n: Seq<char>) -> Option<u64> {
    if exists|i: int| 0 <= i < cs.len() && serves(cs[i], n) {
        Some(cs[choose|i: int| 0 <= i < cs.len() && serves(cs[i], n)].id)
    } else {
        None
    }
}

/// The identifiers of the queues that `dests` reach, one per delivery, in the
/// order of `dests`.
pub open spec fn recipients(cs: Seq<ChannelView>, dests: Seq<Seq<char>>) -> Seq<u64>
    decreases dests.len(),
{
    if dests.len() == 0 {
        seq![]
    } else {
        recipients(cs, dests.drop_last()) + match open_id(cs, dests.last()) {
            Some(id) => seq![id],
            None => seq![],
        }
    }
}

/// The position of the queue with identifier `id`, if there is one.
pub open spec fn index_of(cs: Seq<ChannelView>, id: u64) -> Option<int> {
    if exists|i: int| 0 <= i < cs.len() && cs[i].id == id {
        Some(choose|i: int| 0 <= i < cs.len() && cs[i].id == id)
    } else {
        None
    }
}

/// No two queues share an identifier, and no two open queues share a name.
pub open spec fn distinct(cs: Seq<ChannelView>) -> bool {
    &&& forall|i: int, j: int|
        0 <= i < cs.len() && 0 <= j < cs.len() && i != j ==> #[trigger] cs[i].id != #[trigger] cs[j].id
    &&& forall|i: int, j: int|
        #![trigger cs[i], cs[j]]
        0 <= i < cs.len() && 0 <= j < cs.len() && i != j && cs[i].open && cs[j].open
            ==> cs[i].name != cs[j].name
}

/// Routing changes neither the number of queues nor any queue's identifier,
/// name or openness.
pub proof fn lemma_route_shape(cs: Seq<ChannelView>, dests: Seq<Seq<char>>, body: Seq<char>)
    ensures
        route_all(cs, dests, body).len() == cs.len(),
        forall|i: int|
            0 <= i < cs.len() ==> {
                &&& #[trigger] route_all(cs, dests, body)[i].id == cs[i].id
                &&& route_all(cs, dests, body)[i].name == cs[i].name
                &&& route_all(cs, dests, body)[i].open == cs[i].open
            },
    decreases dests.len(),
{
    if dests.len() > 0 {
        lemma_route_shape(cs, dests.drop_last(), body);
    }
}

/// What a writer does next.
pub enum WriterStep {
    /// Write this message, the oldest one queued.
    Deliver(String),
    /// Nothing queued yet: wait until the broker routes more.
    Wait,
    /// The queue is closed and drained, or gone: the writer ends.
    Finished,
}

/// The routing core.
pub struct Broker {
    channels: Vec<Channel>,
    next_id: u64,
    accepting: bool,
}

impl View for Broker {
    type V = BrokerView;

    closed spec fn view(&self) -> BrokerView {
        BrokerView {
            channels: self.channels@.map_values(|c: Channel| c@),
            next_id: self.next_id,
            accepting: self.accepting,
        }
    }
}

impl Broker {
    /// The broker's invariant: identifiers are unique and below `next_id`, one
    /// open queue at most per name, and none open once shut down.
    pub open spec fn wf(&self) -> bool {
        &&& distinct(self@.channels)
        &&& forall|i: int|
            0 <= i < self@.channels.len() ==> #[trigger] self@.channels[i].id < self@.next_id
        &&& !self@.accepting ==> forall|i: int|
            0 <= i < self@.channels.len() ==> !#[trigger] self@.channels[i].open
    }

    /// An empty broker that takes registrations.
    pub fn new() -> (r: Broker)
        ensures
            r.wf(),
            r@ == (BrokerView { channels: seq![], next_id: 0, accepting: true }),
    {
        let r = Broker { channels: Vec::new(), next_id: 0, accepting: true };
        assert(r@.channels =~= seq![]);
        r
    }

    /// The position of the open queue registered under `key`, if any.
    fn find_open(&self, key: &Vec<char>) -> (r: Option<usize>)
        ensures
            match r {
                Some(i) => i < self@.channels.len() && serves(self@.channels[i as int], key@),
                None => forall|i: int|
                    0 <= i < self@.channels.len() ==> !serves(#[trigger] self@.channels[i], key@),
            },
    {
        let mut i: usize = 0;
        while i < self.channels.len()
            invariant
                i <= self@.channels.len() == self.channels@.len(),
                forall|j: int| 0 <= j < i ==> !serves(#[trigger] self@.channels[j], key@),
            decreases self.channels@.len() - i,
        {
            if self.channels[i].open && same_chars(&self.channels[i].name, key) {
                return Some(i);
            }
            i = i + 1;
        }
        None
    }

    /// The position of the queue with identifier `id`, if any.
    fn find_id(&self, id: u64) -> (r: Option<usize>)
        ensures
            match r {
                Some(i) => i < self@.channels.len() && self@.channels[i as int].id == id,
                None => forall|i: int|
                    0 <= i < self@.channels.len() ==> #[trigger] self@.channels[i].id != id,
            },
    {
        let mut i: usize = 0;
        while i < self.channels.len()
            invariant
                i <= self@.channels.len() == self.channels@.len(),
                forall|j: int| 0 <= j < i ==> #[trigger] self@.channels[j].id != id,
            decreases self.channels@.len() - i,
        {
            if self.channels[i].id == id {
                return Some(i);
            }
            i = i + 1;
        }
        None
    }

    /// Closes every queue registered under `key`.
    fn close_matching(&mut self, key: &Vec<char>)
        requires
            old(self).wf(),
        ensures
            final(self).wf(),
            final(self)@ == (BrokerView {
                channels: close_named(old(self)@.channels, key@),
                ..old(self)@
            }),
    {
        let ghost before = self@.channels;
        let mut i: usize = 0;
        while i < self.channels.len()
            invariant
                self.wf(),
                i <= self@.channels.len() == self.channels@.len() == before.len(),
                self@.next_id == old(self)@.next_id,
                self@.accepting == old(self)@.accepting,
                before == old(self)@.channels,
                forall|j: int|
                    0 <= j < i ==> #[trigger] self@.channels[j] == close_named(before, key@)[j],
                forall|j: int| i <= j < before.len() ==> #[trigger] self@.channels[j] == before[j],
            decreases self.channels@.len() - i,
        {
            let ghost cur = self@.channels;
            if same_chars(&self.channels[i].name, key) {
                self.channels[i].open = false;
                assert(self@.channels =~= cur.update(
                    i as int,
                    ChannelView { open: false, ..cur[i as int] },
                ));
            }
            i = i + 1;
        }
        assert(self@.channels =~= close_named(before, key@));
    }

    /// Registers a new outbound queue under `name` and returns its identifier.
    /// A queue already registered under that name is closed: the last
    /// registration wins. After shutdown, or once identifiers run out, nothing
    /// changes and the result is `None`.
    pub fn register(&mut self, name: &str) -> (r: Option<u64>)
        requires
            old(self).wf(),
        ensures
            final(self).wf(),
            old(self)@.accepting && old(self)@.next_id < u64::MAX ==> {
                &&& r == Some(old(self)@.next_id)
                &&& final(self)@ == (BrokerView {
                    channels: close_named(old(self)@.channels, name@).push(
                        ChannelView {
                            id: old(self)@.next_id,
                            name: name@,
                            pending: seq![],
                            open: true,
                        },
                    ),
                    next_id: (old(self)@.next_id + 1) as u64,
                    accepting: true,
                })
            },
            !(old(self)@.accepting && old(self)@.next_id < u64::MAX) ==> {
                &&& r is None
                &&& final(self)@ == old(self)@
            },
    {
        if !self.accepting || self.next_id == u64::MAX {
            return None;
        }
        let key = chars_of(name);
        self.close_matching(&key);
        let id = self.next_id;
        let ch = Channel { id, name: key, pending: Vec::new(), open: true };
        assert(ch@.pending =~= seq![]);
        self.channels.push(ch);
        self.next_id = id + 1;
        assert(self@.channels =~= close_named(old(self)@.channels, name@).push(ch@));
        Some(id)
    }

    /// Removes `name` from the registry: its queue is closed, so nothing more
    /// is routed to it, while what it already holds stays for its writer.
    /// Idempotent; a name that is not registered changes nothing.
    pub fn deregister(&mut self, name: &str)
        requires
            old(self).wf(),
        ensures
            final(self).wf(),
            final(self)@ == (BrokerView {
                channels: close_named(old(self)@.channels, name@),
                ..old(self)@
            }),
    {
        let key = chars_of(name);
        self.close_matching(&key);
    }

    /// Sends the request's body to each of its destinations in turn: to the
    /// open queue registered under that name, if there is one; an unknown name
    /// is skipped. Returns the identifiers of the queues that received it, one
    /// per delivery.
    pub fn route(&mut self, req: &RoutingRequest) -> (r: Vec<u64>)
        requires
            old(self).wf(),
        ensures
            final(self).wf(),
            final(self)@ == (BrokerView {
                channels: route_all(old(self)@.channels, req@.destinations, req@.body),
                ..old(self)@
            }),
            r@ == recipients(old(self)@.channels, req@.destinations),
    {
        let ghost before = self@.channels;
        let ghost dests = req@.destinations;
        let ghost body = req@.body;
        let mut out: Vec<u64> = Vec::new();
        let mut t: usize = 0;
        assert(dests.take(0) =~= seq![]);
        while t < req.destinations.len()
            invariant
                self.wf(),
                self@.next_id == old(self)@.next_id,
                self@.accepting == old(self)@.accepting,
                before == old(self)@.channels,
                distinct(before),
                dests == req@.destinations,
                body == req@.body,
                t <= req.destinations@.len() == dests.len(),
                self@.channels == route_all(before, dests.take(t as int), body),
                out@ == recipients(before, dests.take(t as int)),
            decreases req.destinations@.len() - t,
        {
            proof {
                lemma_route_shape(before, dests.take(t as int), body);
            }
            assert(dests.take(t + 1).drop_last() =~= dests.take(t as int));
            let key = chars_of(req.destinations[t].as_str());
            assert(key@ == dests[t as int]);
            let ghost cur = self@.channels;
            match self.find_open(&key) {
                Some(i) => {
                    let m = req.body.clone();
                    let ghost ci = cur[i as int];
                    self.channels[i].pending.push(m);
                    let id = self.channels[i].id;
                    out.push(id);
                    assert(self@.channels[i as int].pending =~= ci.pending.push(body));
                    assert forall|j: int| 0 <= j < cur.len() && j != i implies !serves(
                        #[trigger] cur[j],
                        key@,
                    ) by {
                        assert(cur[i as int].open && cur[i as int].name == key@);
                    }
                    assert(self@.channels =~= deliver(cur, key@, body));
                    assert(serves(before[i as int], key@));
                    assert(open_id(before, key@) == Some(id));
                },
                None => {
                    assert(deliver(cur, key@, body) =~= cur);
                    assert forall|j: int| 0 <= j < before.len() implies !serves(
                        #[trigger] before[j],
                        key@,
                    ) by {
                        assert(!serves(cur[j], key@));
                    }
                    assert(open_id(before, key@) is None);
                },
            }
            t = t + 1;
        }
        assert(dests.take(t as int) =~= dests);
        out
    }

    /// Drops the queue at position `i`.
    fn remove_at(&mut self, i: usize)
        requires
            old(self).wf(),
            i < old(self)@.channels.len(),
        ensures
            final(self).wf(),
            final(self)@ == (BrokerView {
                channels: old(self)@.channels.remove(i as int),
                ..old(self)@
            }),
    {
        let ghost cur = self@.channels;
        self.channels.remove(i);
        assert(self@.channels =~= cur.remove(i as int));
        assert forall|a: int, b: int|
            0 <= a < self@.channels.len() && 0 <= b < self@.channels.len() && a != b
                implies #[trigger] self@.channels[a].id != #[trigger] self@.channels[b].id by {
            let a1 = if a < i { a } else { a + 1 };
            let b1 = if b < i { b } else { b + 1 };
            assert(cur[a1].id != cur[b1].id);
        }
        assert forall|a: int, b: int|
            #![trigger self@.channels[a], self@.channels[b]]
            0 <= a < self@.channels.len() && 0 <= b < self@.channels.len() && a != b
                && self@.channels[a].open && self@.channels[b].open
                implies self@.channels[a].name != self@.channels[b].name by {
            let a1 = if a < i { a } else { a + 1 };
            let b1 = if b < i { b } else { b + 1 };
            assert(cur[a1].open && cur[b1].open);
        }
    }

    /// The writer of queue `id` asks for work. The oldest queued message is
    /// handed out first; an open queue with nothing queued says wait; a closed
    /// queue that is drained is dropped and its writer finishes, as does the
    /// writer of a queue that no longer exists.
    pub fn next_message(&mut self, id: u64) -> (r: WriterStep)
        requires
            old(self).wf(),
        ensures
            final(self).wf(),
            final(self)@.next_id == old(self)@.next_id,
            final(self)@.accepting == old(self)@.accepting,
            match index_of(old(self)@.channels, id) {
                None => r is Finished && final(self)@ == old(self)@,
                Some(i) => {
                    let c = old(self)@.channels[i];
                    if c.pending.len() > 0 {
                        &&& r is Deliver
                        &&& r->Deliver_0@ == c.pending[0]
                        &&& final(self)@.channels == old(self)@.channels.update(
                            i,
                            ChannelView { pending: c.pending.drop_first(), ..c },
                        )
                    } else if c.open {
                        r is Wait && final(self)@ == old(self)@
                    } else {
                        r is Finished && final(self)@.channels == old(self)@.channels.remove(i)
                    }
                },
            },
    {
        let ghost cur = self@.channels;
        match self.find_id(id) {
            None => {
                assert(!exists|j: int| 0 <= j < cur.len() && cur[j].id == id);
                WriterStep::Finished
            },
            Some(i) => {
                assert(index_of(cur, id) == Some(i as int));
                if self.channels[i].pending.len() > 0 {
                    let ghost ci = cur[i as int];
                    let m = self.channels[i].pending.remove(0);
                    assert(self@.channels[i as int].pending =~= ci.pending.drop_first());
                    assert(self@.channels =~= cur.update(
                        i as int,
                        ChannelView { pending: ci.pending.drop_first(), ..ci },
                    ));
                    WriterStep::Deliver(m)
                } else if self.channels[i].open {
                    WriterStep::Wait
                } else {
                    self.remove_at(i);
                    WriterStep::Finished
                }
            },
        }
    }

    /// The writer of queue `id` failed: the queue is dropped with whatever it
    /// still held, so its name is no longer registered. Unknown identifiers
    /// change nothing.
    pub fn writer_failed(&mut self, id: u64)
        requires
            old(self).wf(),
        ensures
            final(self).wf(),
            final(self)@.next_id == old(self)@.next_id,
            final(self)@.accepting == old(self)@.accepting,
            match index_of(old(self)@.channels, id) {
                None => final(self)@ == old(self)@,
                Some(i) => final(self)@.channels == old(self)@.channels.remove(i),
            },
    {
        let ghost cur = self@.channels;
        match self.find_id(id) {
            None => {
                assert(!exists|j: int| 0 <= j < cur.len() && cur[j].id == id);
            },
            Some(i) => {
                assert(index_of(cur, id) == Some(i as int));
                self.remove_at(i);
            },
        }
    }

    /// Stops taking registrations and closes every queue; what the queues hold
    /// stays for their writers to drain.
    pub fn shutdown(&mut self)
        requires
            old(self).wf(),
        ensures
            final(self).wf(),
            final(self)@ == (BrokerView {
                channels: close_all(old(self)@.channels),
                next_id: old(self)@.next_id,
                accepting: false,
            }),
    {
        let ghost before = self@.channels;
        let mut i: usize = 0;
        while i < self.channels.len()
            invariant
                self.wf(),
                i <= self@.channels.len() == self.channels@.len() == before.len(),
                self@.next_id == old(self)@.next_id,
                self@.accepting == old(self)@.accepting,
                before == old(self)@.channels,
                forall|j: int| 0 <= j < i ==> #[trigger] self@.channels[j] == close_all(before)[j],
                forall|j: int| i <= j < before.len() ==> #[trigger] self@.channels[j] == before[j],
            decreases self.channels@.len() - i,
        {
            let ghost cur = self@.channels;
            self.channels[i].open = false;
            assert(self@.channels =~= cur.update(i as int, ChannelView { open: false, ..cur[i as int] }));
            i = i + 1;
        }
        self.accepting = false;
        assert(self@.channels =~= close_all(before));
    }

    /// Whether shutdown has been asked for and every writer has finished.
    pub fn is_finished(&self) -> (r: bool)
        ensures
            r == (!self@.accepting && self@.channels.len() == 0),
    {
        !self.accepting && self.channels.len() == 0
    }

    /// Whether an open queue is registered under `name`.
    pub fn is_registered(&self, name: &str) -> (r: bool)
        ensures
            r == open_id(self@.channels, name@) is Some,
    {
        let key = chars_of(name);
        match self.find_open(&key) {
            Some(i) => {
                assert(serves(self@.channels[i as int], name@));
                true
            },
            None => false,
        }
    }

    /// How many messages queue `id` holds; zero for an unknown identifier.
    pub fn pending_len(&self, id: u64) -> (r: usize)
        requires
            self.wf(),
        ensures
            r == match index_of(self@.channels, id) {
                Some(i) => self@.channels[i].pending.len(),
                None => 0,
            },
    {
        match self.find_id(id) {
            Some(i) => {
                assert(index_of(self@.channels, id) == Some(i as int));
                self.channels[i].pending.len()
            },
            None => 0,
        }
    }
}

} // verus!
