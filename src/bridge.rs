//! The relay between one WebSocket client and its backend connection.
//!
//! The bridge makes the decisions; whoever drives it performs the I/O. Each
//! readiness event is handed to [`Bridge::step`], which says what to write
//! where. Once [`Bridge::is_closed`] holds, both connections are released.
use vstd::prelude::*;
use crate::codec::{
    bodies, concat, desynced, is_frame, lemma_desynced_remainder, lemma_frames,
    lemma_remainder_has_no_packets, lemma_remainder_idempotent, lemma_split, packets, remainder,
    views, FrameDecoder,
};
use crate::queue::{outbound_len, outbound_new, outbound_pop, outbound_push, queued, Outbound};

verus! {

/// Where a bridge is in its life.
#[derive(Debug, Clone, Copy, PartialEq, Eq, Structural)]
pub enum Phase {
    /// Both connections are up and traffic flows both ways.
    Open,
    /// The backend stream ended; the payloads still queued go to the client
    /// before the bridge closes.
    Draining,
    /// The bridge is done and both connections are to be released.
    Closed,
}

/// Something that happened on one of the two connections.
#[derive(Debug, Clone, PartialEq, Eq)]
pub enum Event {
    /// The client sent a binary message with this payload.
    ClientBinary(Vec<u8>),
    /// The client sent a message of another kind.
    ClientOther,
    /// The client's connection closed, or reading from it failed.
    ClientClosed,
    /// These bytes were read from the backend; none at all means that the
    /// backend closed its side.
    BackendData(Vec<u8>),
    /// Reading from the backend failed.
    BackendFailed,
    /// The client can take the next queued payload.
    ClientReady,
    /// A write to the client or to the backend failed.
    WriteFailed,
}

/// What the bridge asks its driver to do after an event.
#[derive(Debug, Clone, PartialEq, Eq)]
pub enum Action {
    Nothing,
    /// Write these bytes to the backend, as they are.
    ToBackend(Vec<u8>),
    /// Send this payload to the client as one binary message.
    ToClient(Vec<u8>),
}

/// The bytes that an action writes to the backend.
pub open spec fn backend_bytes(a: Action) -> Seq<u8> {
    match a {
        Action::ToBackend(b) => b@,
        _ => seq![],
    }
}

/// The client messages that an action sends.
pub open spec fn client_messages(a: Action) -> Seq<Seq<u8>> {
    match a {
        Action::ToClient(p) => seq![p@],
        _ => seq![],
    }
}

/// The state of a bridge as its phase, the backend bytes held back as part
/// of an incomplete packet, and the payloads queued toward the client.
pub struct BridgeState {
    pub phase: Phase,
    pub pending: Seq<u8>,
    pub queue: Seq<Seq<u8>>,
}

/// The state in which the backend stream has ended with `queue` still to be
/// sent to the client.
pub open spec fn ended(queue: Seq<Seq<u8>>) -> BridgeState {
    BridgeState {
        phase: if queue.len() == 0 { Phase::Closed } else { Phase::Draining },
        pending: seq![],
        queue,
    }
}

/// An open bridge after it read the bytes `d` from the backend: the
/// packets they complete join the queue, and a stream out of step ends.
pub open spec fn received(s: BridgeState, d: Seq<u8>) -> BridgeState {
    let all = s.pending + d;
    let queue = s.queue + packets(all);
    if desynced(all) {
        ended(queue)
    } else {
        BridgeState { phase: Phase::Open, pending: remainder(all), queue }
    }
}

/// What one event does to a bridge: its next state, the bytes it writes to
/// the backend, and the messages it sends to the client.
pub open spec fn transition(s: BridgeState, e: Event) -> (BridgeState, Seq<u8>, Seq<Seq<u8>>) {
    let closed = BridgeState { phase: Phase::Closed, ..s };
    match s.phase {
        Phase::Closed => (s, seq![], seq![]),
        Phase::Open => match e {
            Event::ClientBinary(m) => (s, m@, seq![]),
            Event::ClientOther => (s, seq![], seq![]),
            Event::ClientClosed => (closed, seq![], seq![]),
            Event::WriteFailed => (closed, seq![], seq![]),
            Event::BackendFailed => (ended(s.queue), seq![], seq![]),
            Event::BackendData(d) => if d@.len() == 0 {
                (ended(s.queue), seq![], seq![])
            } else {
                (received(s, d@), seq![], seq![])
            },
            Event::ClientReady => if s.queue.len() == 0 {
                (s, seq![], seq![])
            } else {
                (BridgeState { queue: s.queue.drop_first(), ..s }, seq![], seq![s.queue[0]])
            },
        },
        Phase::Draining => match e {
            Event::ClientClosed => (closed, seq![], seq![]),
            Event::WriteFailed => (closed, seq![], seq![]),
            Event::ClientReady => (ended(s.queue.drop_first()), seq![], seq![s.queue[0]]),
            _ => (s, seq![], seq![]),
        },
    }
}

/// What a run of events does to a bridge: its final state, the bytes it
/// writes to the backend, and the messages it sends to the client.
pub open spec fn run(s: BridgeState, es: Seq<Event>) -> (BridgeState, Seq<u8>, Seq<Seq<u8>>)
    decreases es.len(),
{
    if es.len() == 0 {
        (s, seq![], seq![])
    } else {
        let (s1, b1, c1) = transition(s, es[0]);
        let (s2, b2, c2) = run(s1, es.drop_first());
        (s2, b1 + b2, c1 + c2)
    }
}

/// The payloads of a run of client binary messages.
pub open spec fn client_payloads(es: Seq<Event>) -> Seq<Seq<u8>> {
    es.map_values(|e: Event| match e {
        Event::ClientBinary(m) => m@,
        _ => seq![],
    })
}

/// The chunks of a run of backend reads.
pub open spec fn backend_chunks(es: Seq<Event>) -> Seq<Seq<u8>> {
    es.map_values(|e: Event| match e {
        Event::BackendData(d) => d@,
        _ => seq![],
    })
}

/// The state of a bridge that has just been set up.
pub open spec fn fresh() -> BridgeState {
    BridgeState { phase: Phase::Open, pending: seq![], queue: seq![] }
}

/// While the bridge is open, the backend receives exactly the client's
/// binary messages, one after another, in the order they came.
pub proof fn lemma_client_to_backend(s: BridgeState, es: Seq<Event>)
    requires
        s.phase == Phase::Open,
        forall|i: int| 0 <= i < es.len() ==> #[trigger] es[i] is ClientBinary,
    ensures
        run(s, es) == (s, concat(client_payloads(es)), Seq::<Seq<u8>>::empty()),
    decreases es.len(),
{
    if es.len() > 0 {
        let rest = es.drop_first();
        assert(forall|i: int| 0 <= i < rest.len() ==> rest[i] == es[i + 1]);
        assert(es[0] is ClientBinary);
        lemma_client_to_backend(s, rest);
        assert(client_payloads(es).drop_first() =~= client_payloads(rest));
        assert(Seq::<Seq<u8>>::empty() + Seq::<Seq<u8>>::empty() =~= Seq::<Seq<u8>>::empty());
    } else {
        assert(concat(client_payloads(es)) =~= Seq::<u8>::empty());
    }
}

/// Once a stream is out of step, no later bytes bring it back.
pub proof fn lemma_desynced_prefix(a: Seq<u8>, b: Seq<u8>)
    requires
        desynced(a),
    ensures
        desynced(a + b),
{
    lemma_desynced_remainder(a);
    lemma_split(a, b);
    let r = remainder(a) + b;
    assert(r[0] == remainder(a)[0] && r[1] == remainder(a)[1]);
}

/// Reads from the backend that keep the stream in step queue exactly the
/// packets of the bytes read, however the bytes were cut into reads.
pub proof fn lemma_backend_reads(s: BridgeState, es: Seq<Event>)
    requires
        s.phase == Phase::Open,
        remainder(s.pending) == s.pending,
        forall|i: int| 0 <= i < es.len() ==> (#[trigger] es[i] is BackendData && es[i]->BackendData_0@.len() > 0),
        !desynced(s.pending + concat(backend_chunks(es))),
    ensures
        ({
            let all = s.pending + concat(backend_chunks(es));
            run(s, es) == (BridgeState {
                phase: Phase::Open,
                pending: remainder(all),
                queue: s.queue + packets(all),
            }, Seq::<u8>::empty(), Seq::<Seq<u8>>::empty())
        }),
    decreases es.len(),
{
    let cs = backend_chunks(es);
    if es.len() == 0 {
        assert(s.pending + concat(cs) =~= s.pending);
        lemma_remainder_has_no_packets(s.pending);
        assert(s.queue + packets(s.pending) =~= s.queue);
    } else {
        let rest = es.drop_first();
        assert(forall|i: int| 0 <= i < rest.len() ==> rest[i] == es[i + 1]);
        assert(es[0] is BackendData && es[0]->BackendData_0@.len() > 0);
        let d = cs[0];
        let all = s.pending + d;
        let tail = concat(backend_chunks(rest));
        assert(backend_chunks(rest) =~= cs.drop_first());
        assert(s.pending + concat(cs) =~= all + tail);
        if desynced(all) {
            lemma_desynced_prefix(all, tail);
        }
        lemma_split(all, tail);
        lemma_remainder_idempotent(all);
        let s1 = received(s, d);
        lemma_backend_reads(s1, rest);
        assert(s.queue + packets(all) + packets(remainder(all) + tail)
            =~= s.queue + packets(all + tail));
        assert(Seq::<u8>::empty() + Seq::<u8>::empty() =~= Seq::<u8>::empty());
        assert(Seq::<Seq<u8>>::empty() + Seq::<Seq<u8>>::empty() =~= Seq::<Seq<u8>>::empty());
    }
}

/// A fresh bridge that reads well-formed packets from the backend, in any
/// cutting into reads, queues their payloads in order, without the empty
/// ones, and holds nothing back.
pub proof fn lemma_backend_packets(es: Seq<Event>, fs: Seq<Seq<u8>>)
    requires
        forall|i: int| 0 <= i < es.len() ==> (#[trigger] es[i] is BackendData && es[i]->BackendData_0@.len() > 0),
        forall|i: int| 0 <= i < fs.len() ==> is_frame(#[trigger] fs[i]),
        concat(backend_chunks(es)) == concat(fs),
    ensures
        run(fresh(), es) == (BridgeState { phase: Phase::Open, pending: seq![], queue: bodies(fs) },
            Seq::<u8>::empty(), Seq::<Seq<u8>>::empty()),
{
    lemma_frames(fs);
    let s = fresh();
    assert(s.pending + concat(fs) =~= concat(fs));
    assert(remainder(s.pending) == s.pending);
    lemma_backend_reads(s, es);
    assert(s.queue + bodies(fs) =~= bodies(fs));
}

/// A bridge that is not closed and is told as many times as it has queued
/// payloads that the client is ready sends them all, in order; one whose
/// backend stream has ended then closes.
pub proof fn lemma_drain(s: BridgeState, es: Seq<Event>)
    requires
        s.phase != Phase::Closed,
        s.phase == Phase::Draining ==> s.queue.len() > 0 && s.pending.len() == 0,
        es.len() == s.queue.len(),
        forall|i: int| 0 <= i < es.len() ==> #[trigger] es[i] is ClientReady,
    ensures
        run(s, es).1 == Seq::<u8>::empty(),
        run(s, es).2 == s.queue,
        run(s, es).0.queue == Seq::<Seq<u8>>::empty(),
        run(s, es).0.phase == if s.phase == Phase::Draining { Phase::Closed } else { s.phase },
    decreases es.len(),
{
    if es.len() > 0 {
        let rest = es.drop_first();
        assert(forall|i: int| 0 <= i < rest.len() ==> rest[i] == es[i + 1]);
        assert(es[0] is ClientReady);
        let s1 = transition(s, es[0]).0;
        if s.phase == Phase::Draining && s.queue.len() == 1 {
            assert(rest.len() == 0);
            assert(run(s1, rest) == (s1, Seq::<u8>::empty(), Seq::<Seq<u8>>::empty()));
            assert(s.queue.drop_first() =~= Seq::<Seq<u8>>::empty());
        } else {
            lemma_drain(s1, rest);
        }
        assert(transition(s, es[0]).2 == seq![s.queue[0]]);
        assert(seq![s.queue[0]] + run(s1, rest).2 =~= s.queue);
        assert(Seq::<u8>::empty() + Seq::<u8>::empty() =~= Seq::<u8>::empty());
    } else {
        assert(s.queue =~= Seq::<Seq<u8>>::empty());
    }
}

/// Once the client's connection closes, the bridge is closed for good:
/// whatever happens afterwards, it writes nothing more to either side.
pub proof fn lemma_client_close(s: BridgeState, es: Seq<Event>)
    ensures
        run(transition(s, Event::ClientClosed).0, es).0.phase == Phase::Closed,
        run(transition(s, Event::ClientClosed).0, es).1 == Seq::<u8>::empty(),
        run(transition(s, Event::ClientClosed).0, es).2 == Seq::<Seq<u8>>::empty(),
{
    lemma_closed_stays(transition(s, Event::ClientClosed).0, es);
}

/// A closed bridge stays as it is and writes nothing, whatever happens.
pub proof fn lemma_closed_stays(s: BridgeState, es: Seq<Event>)
    requires
        s.phase == Phase::Closed,
    ensures
        run(s, es) == (s, Seq::<u8>::empty(), Seq::<Seq<u8>>::empty()),
    decreases es.len(),
{
    if es.len() > 0 {
        lemma_closed_stays(s, es.drop_first());
        assert(Seq::<u8>::empty() + Seq::<u8>::empty() =~= Seq::<u8>::empty());
        assert(Seq::<Seq<u8>>::empty() + Seq::<Seq<u8>>::empty() =~= Seq::<Seq<u8>>::empty());
    }
}

/// One client connection paired with its own backend connection.
pub struct Bridge {
    phase: Phase,
    decoder: FrameDecoder,
    outbound: Outbound,
}

impl Bridge {
    /// The bridge's state.
    pub closed spec fn state(&self) -> BridgeState {
        BridgeState { phase: self.phase, pending: self.decoder@, queue: queued(self.outbound) }
    }

    /// The decoder holds what decoding leaves over, and a draining bridge
    /// holds back no bytes and has something left to send.
    pub closed spec fn wf(&self) -> bool {
        &&& self.decoder.wf()
        &&& self.phase == Phase::Draining ==> self.decoder@.len() == 0
        &&& self.phase == Phase::Draining ==> queued(self.outbound).len() > 0
    }

    /// A bridge whose two connections have just been set up.
    pub fn new() -> (b: Bridge)
        ensures
            b.wf(),
            b.state() == (BridgeState { phase: Phase::Open, pending: seq![], queue: seq![] }),
    {
        Bridge { phase: Phase::Open, decoder: FrameDecoder::new(), outbound: outbound_new() }
    }

    /// The bridge's phase.
    pub fn phase(&self) -> (r: Phase)
        ensures
            r == self.state().phase,
    {
        self.phase
    }

    /// Whether the bridge is done, so that both connections are to be
    /// released.
    pub fn is_closed(&self) -> (r: bool)
        ensures
            r == (self.state().phase == Phase::Closed),
    {
        self.phase == Phase::Closed
    }

    /// Whether a payload waits to be sent to the client.
    pub fn has_outbound(&self) -> (r: bool)
        ensures
            r == (self.state().queue.len() > 0),
    {
        outbound_len(&self.outbound) > 0
    }

    /// Whether the backend stream is still read.
    pub fn reads_backend(&self) -> (r: bool)
        ensures
            r == (self.state().phase == Phase::Open),
    {
        self.phase == Phase::Open
    }

    /// Handles one event and returns what to write where. Client messages
    /// go to the backend verbatim; bytes from the backend are decoded and
    /// their packets queued; a ready client gets the oldest queued payload.
    /// A closed client or a failed write closes the bridge; the end of the
    /// backend stream, a failed backend read or a stream out of step lets
    /// the queue drain first.
    pub fn step(&mut self, e: Event) -> (a: Action)
        requires
            old(self).wf(),
        ensures
            final(self).wf(),
            (final(self).state(), backend_bytes(a), client_messages(a)) == transition(
                old(self).state(),
                e,
            ),
    {
        match self.phase {
            Phase::Closed => Action::Nothing,
            Phase::Open => match e {
                Event::ClientBinary(m) => Action::ToBackend(m),
                Event::ClientOther => Action::Nothing,
                Event::ClientClosed | Event::WriteFailed => {
                    self.phase = Phase::Closed;
                    Action::Nothing
                },
                Event::BackendFailed => {
                    self.end_backend();
                    Action::Nothing
                },
                Event::BackendData(d) => {
                    if d.len() == 0 {
                        self.end_backend();
                    } else {
                        self.take_backend(d.as_slice());
                    }
                    Action::Nothing
                },
                Event::ClientReady => match outbound_pop(&mut self.outbound) {
                    Some(p) => Action::ToClient(p),
                    None => Action::Nothing,
                },
            },
            Phase::Draining => match e {
                Event::ClientClosed | Event::WriteFailed => {
                    self.phase = Phase::Closed;
                    Action::Nothing
                },
                Event::ClientReady => {
                    proof {
                        assert(self.decoder@ =~= Seq::<u8>::empty());
                    }
                    let r = outbound_pop(&mut self.outbound);
                    if outbound_len(&self.outbound) == 0 {
                        self.phase = Phase::Closed;
                    }
                    match r {
                        Some(p) => Action::ToClient(p),
                        None => Action::Nothing,
                    }
                },
                _ => Action::Nothing,
            },
        }
    }

    /// The bridge after the backend stream ended: bytes held back are
    /// dropped, and it closes at once unless payloads wait for the client.
    fn end_backend(&mut self)
        requires
            old(self).decoder.wf(),
            old(self).phase == Phase::Open,
        ensures
            final(self).wf(),
            final(self).state() == ended(old(self).state().queue),
    {
        self.decoder = FrameDecoder::new();
        if outbound_len(&self.outbound) == 0 {
            self.phase = Phase::Closed;
        } else {
            self.phase = Phase::Draining;
        }
    }

    /// Takes bytes read from the backend: the packets they complete join
    /// the queue toward the client.
    fn take_backend(&mut self, d: &[u8])
        requires
            old(self).wf(),
            old(self).phase == Phase::Open,
            d@.len() > 0,
        ensures
            final(self).wf(),
            final(self).state() == received(old(self).state(), d@),
    {
        let ghost q0 = queued(self.outbound);
        let ghost all = self.decoder@ + d@;
        let out = self.decoder.feed(d);
        let mut i: usize = 0;
        while i < out.len()
            invariant
                i <= out.len(),
                queued(self.outbound) == q0 + views(out@).take(i as int),
                views(out@) == packets(all),
                self.decoder.wf(),
                self.decoder@ == remainder(all),
                self.phase == Phase::Open,
            decreases out.len() - i,
        {
            let p = out[i].clone();
            outbound_push(&mut self.outbound, p);
            i = i + 1;
            proof {
                assert(views(out@).take(i as int) =~= views(out@).take(i - 1).push(out@[i - 1]@));
            }
        }
        proof {
            assert(views(out@).take(out@.len() as int) =~= views(out@));
            lemma_desynced_remainder(all);
            lemma_desynced_remainder(remainder(all));
            lemma_remainder_idempotent(all);
        }
        if self.decoder.is_desynced() {
            self.end_backend();
        }
    }
}

} // verus!
