//! The sending side: delivering one serialized message to a list of peers, one
//! connection per peer, in order, stopping at the first failure.

use vstd::prelude::*;

verus! {

/// Why a delivery failed.
pub enum SendError<E> {
    /// Fewer bytes were written than the serialized message holds.
    Incomplete,
    /// Connecting, serializing, writing or shutting down failed with this error.
    Failed(E),
}

/// The step of the delivery to the current peer.
#[derive(Clone, Copy, Debug, PartialEq, Eq, Structural)]
pub enum SendStage {
    /// Waiting for the connection to the current peer.
    Connecting,
    /// Waiting for the message to be serialized.
    Serializing,
    /// Waiting for the serialized message to be written.
    Writing,
    /// Waiting for the writing half of the connection to be shut down.
    ShuttingDown,
    /// The delivery is over.
    Finished,
}

/// What the last step of a delivery produced.
pub enum SendEvent<E> {
    /// The connection to the current peer is open.
    Connected,
    /// The message was serialized into these bytes.
    Serialized(Vec<u8>),
    /// A write of the serialized message reported this many bytes written.
    Wrote(usize),
    /// The writing half of the connection was shut down.
    ShutDown,
    /// The step failed with this error.
    Failed(E),
}

/// The next step of a delivery, for the caller to take.
pub enum SendAction<E> {
    /// Connect to this address.
    Connect(String),
    /// Serialize the message.
    Serialize,
    /// Write these bytes to the connection, with one write.
    Write(Vec<u8>),
    /// Shut down the writing half of the connection.
    Shutdown,
    /// The delivery is over, with this result.
    Done(Result<(), SendError<E>>),
}

/// A [`SendAction`] seen as values.
pub enum SendActionView<E> {
    Connect(Seq<char>),
    Serialize,
    Write(Seq<u8>),
    Shutdown,
    Done(Result<(), SendError<E>>),
}

impl<E> View for SendAction<E> {
    type V = SendActionView<E>;

    open spec fn view(&self) -> SendActionView<E> {
        match self {
            SendAction::Connect(a) => SendActionView::Connect(a@),
            SendAction::Serialize => SendActionView::Serialize,
            SendAction::Write(b) => SendActionView::Write(b@),
            SendAction::Shutdown => SendActionView::Shutdown,
            SendAction::Done(r) => SendActionView::Done(*r),
        }
    }
}

/// A [`Delivery`] seen as values.
pub struct DeliveryView<E> {
    /// The addresses of the peers, in the order they are served.
    pub targets: Seq<Seq<char>>,
    /// How many peers have been served in full; the current peer is `targets[next]`.
    pub next: nat,
    /// The step of the delivery to the current peer.
    pub stage: SendStage,
    /// The bytes of the last serialization of the message.
    pub payload: Seq<u8>,
    /// How the delivery ended, once it has.
    pub outcome: Option<Result<(), SendError<E>>>,
}

impl<E> DeliveryView<E> {
    /// A delivery to `targets` that has not taken a step yet. With no target
    /// at all, there is nothing to do and it has succeeded.
    pub open spec fn start(targets: Seq<Seq<char>>) -> DeliveryView<E> {
        if targets.len() == 0 {
            DeliveryView {
                targets,
                next: 0,
                stage: SendStage::Finished,
                payload: Seq::empty(),
                outcome: Some(Ok(())),
            }
        } else {
            DeliveryView {
                targets,
                next: 0,
                stage: SendStage::Connecting,
                payload: Seq::empty(),
                outcome: None,
            }
        }
    }

    /// The delivery's invariant: it is over exactly when it has an outcome;
    /// while it runs, the current peer exists; it succeeded only if every
    /// peer was served, and it failed while serving one of them.
    pub open spec fn wf(self) -> bool {
        &&& self.next <= self.targets.len()
        &&& (self.stage is Finished <==> self.outcome is Some)
        &&& (!(self.stage is Finished) ==> self.next < self.targets.len())
        &&& (self.outcome == Some(Ok::<(), SendError<E>>(())) ==> self.next == self.targets.len())
        &&& (self.outcome matches Some(Err(_)) ==> self.next < self.targets.len())
    }

    /// Whether `e` answers the step this delivery asked for: a failure answers
    /// any step, and each step has its own success.
    pub open spec fn accepts(self, e: SendEvent<E>) -> bool {
        match self.stage {
            SendStage::Finished => false,
            SendStage::Connecting => e is Connected || e is Failed,
            SendStage::Serializing => e is Serialized || e is Failed,
            SendStage::Writing => e is Wrote || e is Failed,
            SendStage::ShuttingDown => e is ShutDown || e is Failed,
        }
    }

    /// The delivery over, with `outcome`.
    pub open spec fn finish(self, outcome: Result<(), SendError<E>>) -> DeliveryView<E> {
        DeliveryView { stage: SendStage::Finished, outcome: Some(outcome), ..self }
    }

    /// The delivery that follows event `e`; an event that is not accepted changes nothing.
    pub open spec fn after(self, e: SendEvent<E>) -> DeliveryView<E> {
        if !self.accepts(e) {
            self
        } else {
            match e {
                SendEvent::Failed(x) => self.finish(Err(SendError::Failed(x))),
                SendEvent::Connected => DeliveryView { stage: SendStage::Serializing, ..self },
                SendEvent::Serialized(b) => DeliveryView {
                    stage: SendStage::Writing,
                    payload: b@,
                    ..self
                },
                SendEvent::Wrote(n) => if n == self.payload.len() {
                    DeliveryView { stage: SendStage::ShuttingDown, ..self }
                } else {
                    self.finish(Err(SendError::Incomplete))
                },
                SendEvent::ShutDown => if self.next + 1 < self.targets.len() {
                    DeliveryView { stage: SendStage::Connecting, next: self.next + 1, ..self }
                } else {
                    DeliveryView {
                        stage: SendStage::Finished,
                        next: self.next + 1,
                        outcome: Some(Ok(())),
                        ..self
                    }
                },
            }
        }
    }

    /// The step this delivery asks for.
    pub open spec fn asks(self) -> SendActionView<E> {
        match self.stage {
            SendStage::Connecting => SendActionView::Connect(self.targets[self.next as int]),
            SendStage::Serializing => SendActionView::Serialize,
            SendStage::Writing => SendActionView::Write(self.payload),
            SendStage::ShuttingDown => SendActionView::Shutdown,
            SendStage::Finished => SendActionView::Done(self.outcome.unwrap()),
        }
    }

    /// The delivery after the events `es`, taken one after another.
    pub open spec fn run(self, es: Seq<SendEvent<E>>) -> DeliveryView<E>
        decreases es.len(),
    {
        if es.len() == 0 {
            self
        } else {
            self.after(es[0]).run(es.drop_first())
        }
    }

    /// Whether each of the events `es` is accepted by the delivery it reaches.
    pub open spec fn accepts_all(self, es: Seq<SendEvent<E>>) -> bool
        decreases es.len(),
    {
        es.len() == 0 || (self.accepts(es[0]) && self.after(es[0]).accepts_all(es.drop_first()))
    }
}

/// The decisions of delivering one message to a list of peers.
///
/// For each peer in turn: connect, serialize the message, write it with one
/// write, and shut the connection's writing half down. The delivery stops at
/// the first step that fails, and a write that reports fewer bytes than the
/// serialized message holds fails it as incomplete. It succeeds once every
/// peer has been served.
pub struct Delivery<E> {
    targets: Vec<String>,
    next: usize,
    stage: SendStage,
    payload: Ghost<Seq<u8>>,
    expected: usize,
    outcome: Ghost<Option<Result<(), SendError<E>>>>,
}

impl<E> View for Delivery<E> {
    type V = DeliveryView<E>;

    closed spec fn view(&self) -> DeliveryView<E> {
        DeliveryView {
            targets: self.targets@.map_values(|s: String| s@),
            next: self.next as nat,
            stage: self.stage,
            payload: self.payload@,
            outcome: self.outcome@,
        }
    }
}

impl<E> Delivery<E> {
    #[verifier::type_invariant]
    spec fn consistent(self) -> bool {
        &&& self@.wf()
        &&& self.expected == self.payload@.len()
    }

    /// A delivery of one message to the peers at `targets`, in this order, and its first step.
    pub fn new(targets: Vec<String>) -> (res: (Delivery<E>, SendAction<E>))
        ensures
            res.0@ == DeliveryView::<E>::start(targets@.map_values(|s: String| s@)),
            res.0@.wf(),
            res.1@ == res.0@.asks(),
    {
        if targets.len() == 0 {
            let d = Delivery {
                targets,
                next: 0,
                stage: SendStage::Finished,
                payload: Ghost(Seq::empty()),
                expected: 0,
                outcome: Ghost(Some(Ok(()))),
            };
            (d, SendAction::Done(Ok(())))
        } else {
            let first = targets[0].clone();
            let d = Delivery {
                targets,
                next: 0,
                stage: SendStage::Connecting,
                payload: Ghost(Seq::empty()),
                expected: 0,
                outcome: Ghost(None),
            };
            (d, SendAction::Connect(first))
        }
    }

    /// Whether `e` answers the step this delivery asked for.
    pub fn accepts(&self, e: &SendEvent<E>) -> (ok: bool)
        ensures
            ok == self@.accepts(*e),
    {
        match self.stage {
            SendStage::Finished => false,
            SendStage::Connecting => match e {
                SendEvent::Connected | SendEvent::Failed(_) => true,
                _ => false,
            },
            SendStage::Serializing => match e {
                SendEvent::Serialized(_) | SendEvent::Failed(_) => true,
                _ => false,
            },
            SendStage::Writing => match e {
                SendEvent::Wrote(_) | SendEvent::Failed(_) => true,
                _ => false,
            },
            SendStage::ShuttingDown => match e {
                SendEvent::ShutDown | SendEvent::Failed(_) => true,
                _ => false,
            },
        }
    }

    /// Whether the delivery is over.
    pub fn is_finished(&self) -> (over: bool)
        ensures
            over == (self@.stage is Finished),
    {
        self.stage == SendStage::Finished
    }

    /// Takes in the result of the last step and returns the next one.
    pub fn on_event(&mut self, e: SendEvent<E>) -> (action: SendAction<E>)
        requires
            old(self)@.accepts(e),
        ensures
            final(self)@ == old(self)@.after(e),
            final(self)@.wf(),
            action@ == final(self)@.asks(),
    {
        proof {
            use_type_invariant(&*self);
        }
        let mut cur = Delivery {
            targets: Vec::new(),
            next: 0,
            stage: SendStage::Finished,
            payload: Ghost(Seq::empty()),
            expected: 0,
            outcome: Ghost(Some(Ok(()))),
        };
        std::mem::swap(self, &mut cur);
        let ghost before = cur@;
        let Delivery { targets, next, stage, payload, expected, outcome } = cur;
        let ghost tv = targets@.map_values(|s: String| s@);
        match e {
            SendEvent::Failed(x) => {
                let ghost ended = Some(Err(SendError::Failed(x)));
                *self = Delivery {
                    targets,
                    next,
                    stage: SendStage::Finished,
                    payload,
                    expected,
                    outcome: Ghost(ended),
                };
                SendAction::Done(Err(SendError::Failed(x)))
            },
            SendEvent::Connected => {
                *self = Delivery {
                    targets,
                    next,
                    stage: SendStage::Serializing,
                    payload,
                    expected,
                    outcome,
                };
                SendAction::Serialize
            },
            SendEvent::Serialized(bytes) => {
                let ghost written = bytes@;
                *self = Delivery {
                    targets,
                    next,
                    stage: SendStage::Writing,
                    payload: Ghost(written),
                    expected: bytes.len(),
                    outcome,
                };
                SendAction::Write(bytes)
            },
            SendEvent::Wrote(n) => {
                if n == expected {
                    *self = Delivery {
                        targets,
                        next,
                        stage: SendStage::ShuttingDown,
                        payload,
                        expected,
                        outcome,
                    };
                    SendAction::Shutdown
                } else {
                    *self = Delivery {
                        targets,
                        next,
                        stage: SendStage::Finished,
                        payload,
                        expected,
                        outcome: Ghost(Some(Err(SendError::Incomplete))),
                    };
                    SendAction::Done(Err(SendError::Incomplete))
                }
            },
            SendEvent::ShutDown => {
                let count = targets.len();
                assert(before.targets.len() == targets@.len());
                let served = next + 1;
                if served < count {
                    let address = targets[served].clone();
                    assert(tv[served as int] == targets@[served as int]@);
                    *self = Delivery {
                        targets,
                        next: served,
                        stage: SendStage::Connecting,
                        payload,
                        expected,
                        outcome,
                    };
                    SendAction::Connect(address)
                } else {
                    *self = Delivery {
                        targets,
                        next: served,
                        stage: SendStage::Finished,
                        payload,
                        expected,
                        outcome: Ghost(Some(Ok(()))),
                    };
                    SendAction::Done(Ok(()))
                }
            },
        }
    }
}

/// The events of serving one peer without a fault: connected, serialized into
/// `payload`, all of it written, shut down.
pub open spec fn clean_round<E>(payload: Vec<u8>) -> Seq<SendEvent<E>> {
    seq![
        SendEvent::Connected,
        SendEvent::Serialized(payload),
        SendEvent::Wrote(payload.len()),
        SendEvent::ShutDown,
    ]
}

/// The events of serving one peer after another without a fault, the i-th
/// serialization giving `payloads[i]`.
pub open spec fn clean_rounds<E>(payloads: Seq<Vec<u8>>) -> Seq<SendEvent<E>>
    decreases payloads.len(),
{
    if payloads.len() == 0 {
        Seq::empty()
    } else {
        clean_round(payloads[0]) + clean_rounds(payloads.drop_first())
    }
}

proof fn lemma_run_append<E>(d: DeliveryView<E>, a: Seq<SendEvent<E>>, b: Seq<SendEvent<E>>)
    ensures
        d.run(a + b) == d.run(a).run(b),
        d.accepts_all(a + b) == (d.accepts_all(a) && d.run(a).accepts_all(b)),
    decreases a.len(),
{
    if a.len() == 0 {
        assert(a + b == b);
    } else {
        assert((a + b)[0] == a[0]);
        assert((a + b).drop_first() == a.drop_first() + b);
        lemma_run_append(d.after(a[0]), a.drop_first(), b);
    }
}

/// A delivery that is over stays as it is: it accepts no further event.
pub proof fn lemma_finished_is_final<E>(d: DeliveryView<E>, es: Seq<SendEvent<E>>)
    requires
        d.stage is Finished,
    ensures
        d.run(es) == d,
        d.accepts_all(es) <==> es.len() == 0,
    decreases es.len(),
{
    if es.len() > 0 {
        lemma_finished_is_final(d.after(es[0]), es.drop_first());
    }
}

/// Every accepted event keeps the delivery's invariant, and peers are served
/// in order: the count of peers served grows by one on a shutdown and stays
/// put on any other event.
pub proof fn lemma_step_keeps_invariant<E>(d: DeliveryView<E>, e: SendEvent<E>)
    requires
        d.wf(),
        d.accepts(e),
    ensures
        d.after(e).wf(),
        d.after(e).targets == d.targets,
        d.after(e).next == (if e is ShutDown { d.next + 1 } else { d.next }),
{
}

proof fn lemma_clean_round<E>(d: DeliveryView<E>, payload: Vec<u8>)
    requires
        d.wf(),
        d.stage is Connecting,
    ensures
        d.accepts_all(clean_round(payload)),
        d.run(clean_round(payload)) == (if d.next + 1 < d.targets.len() {
            DeliveryView {
                stage: SendStage::Connecting,
                next: d.next + 1,
                payload: payload@,
                ..d
            }
        } else {
            DeliveryView {
                stage: SendStage::Finished,
                next: d.next + 1,
                payload: payload@,
                outcome: Some(Ok(())),
                ..d
            }
        }),
{
    let es = clean_round::<E>(payload);
    let es1 = es.drop_first();
    let es2 = es1.drop_first();
    let es3 = es2.drop_first();
    let es4 = es3.drop_first();
    assert(es1[0] == SendEvent::<E>::Serialized(payload));
    assert(es2[0] == SendEvent::<E>::Wrote(payload.len()));
    assert(es3[0] == SendEvent::<E>::ShutDown);
    assert(es4.len() == 0);
    let d1 = d.after(es[0]);
    let d2 = d1.after(es1[0]);
    let d3 = d2.after(es2[0]);
    let d4 = d3.after(es3[0]);
    assert(d2.payload.len() == payload.len());
    assert(d3.stage is ShuttingDown);
    assert(d3.run(es3) == d4.run(es4));
    assert(d2.run(es2) == d3.run(es3));
    assert(d1.run(es1) == d2.run(es2));
    assert(d.run(es) == d1.run(es1));
    assert(d4.accepts_all(es4));
    assert(d3.accepts(es3[0]));
    assert(d3.accepts_all(es3));
    assert(d2.accepts_all(es2));
    assert(d1.accepts_all(es1));
}

proof fn lemma_clean_from<E>(d: DeliveryView<E>, payloads: Seq<Vec<u8>>)
    requires
        d.wf(),
        d.stage is Connecting,
        payloads.len() == d.targets.len() - d.next,
    ensures
        d.accepts_all(clean_rounds(payloads)),
        d.run(clean_rounds(payloads)).outcome == Some(Ok::<(), SendError<E>>(())),
        d.run(clean_rounds(payloads)).next == d.targets.len(),
    decreases payloads.len(),
{
    let first = clean_round::<E>(payloads[0]);
    let rest = clean_rounds::<E>(payloads.drop_first());
    assert(clean_rounds::<E>(payloads) == first + rest);
    lemma_run_append(d, first, rest);
    lemma_clean_round(d, payloads[0]);
    let d1 = d.run(first);
    if d.next + 1 < d.targets.len() {
        lemma_clean_from(d1, payloads.drop_first());
    } else {
        assert(payloads.drop_first().len() == 0);
        assert(rest.len() == 0);
    }
}

/// A delivery in which every step succeeds and every write takes the whole
/// message serves every peer, in order, and succeeds.
pub proof fn lemma_clean_delivery_succeeds<E>(targets: Seq<Seq<char>>, payloads: Seq<Vec<u8>>)
    requires
        payloads.len() == targets.len(),
    ensures
        DeliveryView::<E>::start(targets).accepts_all(clean_rounds(payloads)),
        DeliveryView::<E>::start(targets).run(clean_rounds(payloads)).outcome == Some(
            Ok::<(), SendError<E>>(()),
        ),
        DeliveryView::<E>::start(targets).run(clean_rounds(payloads)).next == targets.len(),
{
    let d = DeliveryView::<E>::start(targets);
    if targets.len() == 0 {
        assert(clean_rounds::<E>(payloads).len() == 0);
    } else {
        lemma_clean_from(d, payloads);
    }
}

proof fn lemma_success_from<E>(d: DeliveryView<E>, es: Seq<SendEvent<E>>)
    requires
        d.wf(),
        d.stage is Connecting,
        d.accepts_all(es),
        d.run(es).outcome == Some(Ok::<(), SendError<E>>(())),
    ensures
        exists|ps: Seq<Vec<u8>>| ps.len() == d.targets.len() - d.next && es == clean_rounds::<E>(ps),
    decreases es.len(),
{
    if es.len() == 0 {
        assert(false);
    }
    let es1 = es.drop_first();
    let d1 = d.after(es[0]);
    assert(d.run(es) == d1.run(es1));
    assert(d1.accepts_all(es1));
    if es[0] is Failed {
        lemma_finished_is_final(d1, es1);
        assert(false);
    }
    if es1.len() == 0 {
        assert(false);
    }
    let es2 = es1.drop_first();
    let d2 = d1.after(es1[0]);
    assert(d1.run(es1) == d2.run(es2));
    assert(d2.accepts_all(es2));
    if es1[0] is Failed {
        lemma_finished_is_final(d2, es2);
        assert(false);
    }
    let b = es1[0]->Serialized_0;
    if es2.len() == 0 {
        assert(false);
    }
    let es3 = es2.drop_first();
    let d3 = d2.after(es2[0]);
    assert(d2.run(es2) == d3.run(es3));
    assert(d3.accepts_all(es3));
    if es2[0] is Failed {
        lemma_finished_is_final(d3, es3);
        assert(false);
    }
    let n = es2[0]->Wrote_0;
    if n != b@.len() {
        lemma_finished_is_final(d3, es3);
        assert(false);
    }
    if es3.len() == 0 {
        assert(false);
    }
    let es4 = es3.drop_first();
    let d4 = d3.after(es3[0]);
    assert(d3.run(es3) == d4.run(es4));
    assert(d4.accepts_all(es4));
    if es3[0] is Failed {
        lemma_finished_is_final(d4, es4);
        assert(false);
    }
    assert(es == clean_round::<E>(b) + es4);
    assert(d.run(es) == d4.run(es4));
    if d.next + 1 < d.targets.len() {
        lemma_success_from(d4, es4);
        let ps = choose|ps: Seq<Vec<u8>>|
            ps.len() == d4.targets.len() - d4.next && es4 == clean_rounds::<E>(ps);
        let all = seq![b] + ps;
        assert(all[0] == b);
        assert(all.drop_first() == ps);
        assert(es == clean_rounds::<E>(all));
    } else {
        lemma_finished_is_final(d4, es4);
        assert(es4.len() == 0);
        let all = seq![b];
        assert(all.drop_first().len() == 0);
        assert(clean_rounds::<E>(all.drop_first()).len() == 0);
        assert(es == clean_rounds::<E>(all));
    }
}

/// A delivery succeeds only if every peer was served without a fault: the
/// events that led to success are those of one clean round per peer, each
/// write having taken the whole serialized message.
pub proof fn lemma_success_needs_complete_writes<E>(targets: Seq<Seq<char>>, es: Seq<SendEvent<E>>)
    requires
        DeliveryView::<E>::start(targets).accepts_all(es),
        DeliveryView::<E>::start(targets).run(es).outcome == Some(Ok::<(), SendError<E>>(())),
    ensures
        exists|ps: Seq<Vec<u8>>| ps.len() == targets.len() && es == clean_rounds::<E>(ps),
{
    let d = DeliveryView::<E>::start(targets);
    if targets.len() == 0 {
        lemma_finished_is_final(d, es);
        let ps = Seq::<Vec<u8>>::empty();
        assert(es == clean_rounds::<E>(ps));
    } else {
        lemma_success_from(d, es);
    }
}

/// A write that takes fewer (or more) bytes than the serialized message holds
/// ends the delivery as incomplete, with the current peer not served, and
/// nothing after it is accepted.
pub proof fn lemma_short_write_is_incomplete<E>(d: DeliveryView<E>, n: usize, rest: Seq<SendEvent<E>>)
    requires
        d.wf(),
        d.stage is Writing,
        n != d.payload.len(),
    ensures
        d.run(seq![SendEvent::Wrote(n)] + rest).outcome == Some(
            Err::<(), SendError<E>>(SendError::Incomplete),
        ),
        d.run(seq![SendEvent::Wrote(n)] + rest).next == d.next < d.targets.len(),
        d.accepts_all(seq![SendEvent::Wrote(n)] + rest) ==> rest.len() == 0,
        d.run(seq![SendEvent::Wrote(n)] + rest).asks() == SendActionView::Done(
            Err::<(), SendError<E>>(SendError::Incomplete),
        ),
{
    let es = seq![SendEvent::<E>::Wrote(n)] + rest;
    assert(es[0] == SendEvent::<E>::Wrote(n));
    assert(es.drop_first() == rest);
    lemma_finished_is_final(d.after(es[0]), rest);
}

/// A failed step ends the delivery with that very error, and nothing after it
/// is accepted.
pub proof fn lemma_failure_is_reported<E>(d: DeliveryView<E>, x: E, rest: Seq<SendEvent<E>>)
    requires
        d.wf(),
        !(d.stage is Finished),
    ensures
        d.run(seq![SendEvent::Failed(x)] + rest).outcome == Some(
            Err::<(), SendError<E>>(SendError::Failed(x)),
        ),
        d.run(seq![SendEvent::Failed(x)] + rest).next == d.next,
        d.accepts_all(seq![SendEvent::Failed(x)] + rest) ==> rest.len() == 0,
        d.run(seq![SendEvent::Failed(x)] + rest).asks() == SendActionView::Done(
            Err::<(), SendError<E>>(SendError::Failed(x)),
        ),
{
    let es = seq![SendEvent::<E>::Failed(x)] + rest;
    assert(es[0] == SendEvent::<E>::Failed(x));
    assert(es.drop_first() == rest);
    lemma_finished_is_final(d.after(es[0]), rest);
}

/// The write asked for is of exactly the bytes the message was serialized
/// into, and a write that reports all of them written moves on to shutting
/// the connection down.
pub proof fn lemma_writes_the_serialized_bytes<E>(d: DeliveryView<E>, bytes: Vec<u8>)
    requires
        d.wf(),
        d.stage is Serializing,
    ensures
        d.accepts(SendEvent::Serialized(bytes)),
        d.after(SendEvent::Serialized(bytes)).asks() == SendActionView::<E>::Write(bytes@),
        d.after(SendEvent::Serialized(bytes)).accepts(SendEvent::Wrote(bytes.len())),
        d.after(SendEvent::Serialized(bytes)).after(SendEvent::Wrote(bytes.len())).asks()
            == SendActionView::<E>::Shutdown,
{
}

proof fn lemma_clean_partial<E>(d: DeliveryView<E>, payloads: Seq<Vec<u8>>)
    requires
        d.wf(),
        d.stage is Connecting,
        payloads.len() <= d.targets.len() - d.next,
    ensures
        d.accepts_all(clean_rounds(payloads)),
        d.run(clean_rounds(payloads)).targets == d.targets,
        d.run(clean_rounds(payloads)).next == d.next + payloads.len(),
        d.run(clean_rounds(payloads)).wf(),
        d.next + payloads.len() < d.targets.len() ==> d.run(clean_rounds(payloads)).stage
            is Connecting,
        d.next + payloads.len() == d.targets.len() ==> d.run(clean_rounds(payloads)).outcome
            == Some(Ok::<(), SendError<E>>(())),
    decreases payloads.len(),
{
    if payloads.len() == 0 {
        assert(clean_rounds::<E>(payloads).len() == 0);
    } else {
        let first = clean_round::<E>(payloads[0]);
        let rest = clean_rounds::<E>(payloads.drop_first());
        assert(clean_rounds::<E>(payloads) == first + rest);
        lemma_run_append(d, first, rest);
        lemma_clean_round(d, payloads[0]);
        let d1 = d.run(first);
        if d.next + 1 < d.targets.len() {
            lemma_clean_partial(d1, payloads.drop_first());
        } else {
            assert(payloads.drop_first().len() == 0);
            assert(rest.len() == 0);
        }
    }
}

/// Peers are served one after another, in the order given: once the first
/// `k` peers have been served without a fault, the delivery asks to connect
/// to peer `k`, and only once every peer has been served does it report
/// success.
pub proof fn lemma_connects_in_order<E>(targets: Seq<Seq<char>>, payloads: Seq<Vec<u8>>)
    requires
        payloads.len() <= targets.len(),
    ensures
        DeliveryView::<E>::start(targets).accepts_all(clean_rounds(payloads)),
        payloads.len() < targets.len() ==> DeliveryView::<E>::start(targets).run(
            clean_rounds(payloads),
        ).asks() == SendActionView::<E>::Connect(targets[payloads.len() as int]),
        payloads.len() == targets.len() ==> DeliveryView::<E>::start(targets).run(
            clean_rounds(payloads),
        ).asks() == SendActionView::<E>::Done(Ok(())),
{
    let d = DeliveryView::<E>::start(targets);
    if targets.len() == 0 {
        assert(clean_rounds::<E>(payloads).len() == 0);
    } else {
        lemma_clean_partial(d, payloads);
    }
}

} // verus!
