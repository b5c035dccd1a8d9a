//! The receiving side: gathering one message from an accepted connection, and
//! deciding, between the steps of a poll, whether to accept, read, deliver or park.

use vstd::prelude::*;

verus! {

/// How many bytes one connection's message may occupy. The receive buffer is
/// made with this capacity and never grows: once it is full, a read has no room
/// left, gives nothing, and the message ends there.
pub const RECEIVE_CAPACITY: usize = 4096;

/// The contents of an [`Inbox`], seen as values.
pub struct InboxView {
    /// The bytes read so far, in the order they arrived.
    pub received: Seq<u8>,
    /// How many bytes the inbox can hold in all.
    pub capacity: nat,
    /// Whether a read has given nothing, which ends the message.
    pub closed: bool,
}

impl InboxView {
    /// An inbox that has read nothing yet.
    pub open spec fn empty(capacity: nat) -> InboxView {
        InboxView { received: Seq::empty(), capacity, closed: false }
    }

    /// The room that is left for further reads.
    pub open spec fn spare(self) -> int {
        self.capacity - self.received.len()
    }

    /// The inbox after a read that gave `chunk`: an empty read ends the message,
    /// any other read is appended; once ended, nothing changes any more.
    pub open spec fn absorb(self, chunk: Seq<u8>) -> InboxView {
        if self.closed {
            self
        } else if chunk.len() == 0 {
            InboxView { received: self.received, capacity: self.capacity, closed: true }
        } else {
            InboxView { received: self.received + chunk, capacity: self.capacity, closed: false }
        }
    }

    /// The inbox after the reads that gave `chunks`, one after another.
    pub open spec fn absorb_all(self, chunks: Seq<Seq<u8>>) -> InboxView
        decreases chunks.len(),
    {
        if chunks.len() == 0 {
            self
        } else {
            self.absorb(chunks[0]).absorb_all(chunks.drop_first())
        }
    }
}

/// The reads of a sequence of chunks that come before the first empty one.
pub open spec fn before_first_empty(chunks: Seq<Seq<u8>>) -> Seq<Seq<u8>>
    decreases chunks.len(),
{
    if chunks.len() == 0 || chunks[0].len() == 0 {
        Seq::empty()
    } else {
        seq![chunks[0]] + before_first_empty(chunks.drop_first())
    }
}

/// Whether some chunk of the sequence is empty.
pub open spec fn has_empty(chunks: Seq<Seq<u8>>) -> bool {
    exists|i: int| 0 <= i < chunks.len() && #[trigger] chunks[i].len() == 0
}

/// The buffer in which one connection's message is gathered.
pub struct Inbox {
    bytes: Vec<u8>,
    capacity: usize,
    closed: bool,
}

impl View for Inbox {
    type V = InboxView;

    closed spec fn view(&self) -> InboxView {
        InboxView { received: self.bytes@, capacity: self.capacity as nat, closed: self.closed }
    }
}

impl Inbox {
    #[verifier::type_invariant]
    spec fn within_capacity(self) -> bool {
        self.bytes@.len() <= self.capacity
    }

    /// An empty inbox that holds at most `capacity` bytes.
    pub fn new(capacity: usize) -> (inbox: Inbox)
        ensures
            inbox@ == InboxView::empty(capacity as nat),
    {
        Inbox { bytes: Vec::with_capacity(capacity), capacity, closed: false }
    }

    /// The room left for further reads: a read must give at most this many bytes.
    pub fn spare(&self) -> (n: usize)
        ensures
            n == self@.spare(),
            self@.received.len() <= self@.capacity,
    {
        proof {
            use_type_invariant(self);
        }
        self.capacity - self.bytes.len()
    }

    /// Whether the message has ended.
    pub fn is_closed(&self) -> (closed: bool)
        ensures
            closed == self@.closed,
    {
        self.closed
    }

    /// Takes in what one read gave, and returns the inbox that results.
    pub fn absorb(self, chunk: &[u8]) -> (next: Inbox)
        requires
            chunk@.len() <= self@.spare(),
        ensures
            next@ == self@.absorb(chunk@),
            next@.received.len() <= next@.capacity,
    {
        proof {
            use_type_invariant(&self);
        }
        let Inbox { mut bytes, capacity, closed } = self;
        if closed {
            return Inbox { bytes, capacity, closed };
        }
        if chunk.len() == 0 {
            return Inbox { bytes, capacity, closed: true };
        }
        let ghost before = bytes@;
        let mut i: usize = 0;
        while i < chunk.len()
            invariant
                0 <= i <= chunk@.len(),
                before.len() + chunk@.len() <= capacity,
                bytes@ == before + chunk@.subrange(0, i as int),
            decreases chunk@.len() - i,
        {
            bytes.push(chunk[i]);
            i = i + 1;
            assert(bytes@ == before + chunk@.subrange(0, i as int));
        }
        assert(chunk@.subrange(0, chunk@.len() as int) == chunk@);
        Inbox { bytes, capacity, closed: false }
    }

    /// The bytes gathered, in the order they arrived.
    pub fn into_message(self) -> (message: Vec<u8>)
        ensures
            message@ == self@.received,
            message@.len() <= self@.capacity,
    {
        proof {
            use_type_invariant(&self);
        }
        self.bytes
    }
}

/// Gathering in order: the reads that give `chunks`, one after another, leave
/// the inbox with what it had followed by every chunk that comes before the
/// first empty one, and the message has ended exactly when one of them was
/// empty.
pub proof fn lemma_gathers_in_order(v: InboxView, chunks: Seq<Seq<u8>>)
    requires
        !v.closed,
    ensures
        v.absorb_all(chunks).received == v.received + before_first_empty(chunks).flatten(),
        v.absorb_all(chunks).capacity == v.capacity,
        v.absorb_all(chunks).closed == has_empty(chunks),
    decreases chunks.len(),
{
    if chunks.len() == 0 {
        assert(v.received + Seq::<u8>::empty() == v.received);
    } else if chunks[0].len() == 0 {
        lemma_closed_is_final(v.absorb(chunks[0]), chunks.drop_first());
        assert(v.received + Seq::<u8>::empty() == v.received);
        assert(has_empty(chunks));
    } else {
        let rest = chunks.drop_first();
        let w = v.absorb(chunks[0]);
        lemma_gathers_in_order(w, rest);
        let firsts = before_first_empty(chunks);
        assert(firsts == seq![chunks[0]] + before_first_empty(rest));
        assert(firsts.drop_first() == before_first_empty(rest));
        assert(firsts.flatten() == chunks[0] + before_first_empty(rest).flatten());
        assert(v.received + firsts.flatten() == w.received + before_first_empty(rest).flatten());
        if has_empty(chunks) {
            let i = choose|i: int| 0 <= i < chunks.len() && #[trigger] chunks[i].len() == 0;
            assert(rest[i - 1].len() == 0);
        }
        if has_empty(rest) {
            let i = choose|i: int| 0 <= i < rest.len() && #[trigger] rest[i].len() == 0;
            assert(chunks[i + 1].len() == 0);
        }
    }
}

/// An ended message is final: further reads change nothing.
pub proof fn lemma_closed_is_final(v: InboxView, chunks: Seq<Seq<u8>>)
    requires
        v.closed,
    ensures
        v.absorb_all(chunks) == v,
    decreases chunks.len(),
{
    if chunks.len() > 0 {
        lemma_closed_is_final(v.absorb(chunks[0]), chunks.drop_first());
    }
}

/// Why a poll gave up; the caller answers it by panicking, as a failed accept
/// or a failed read leaves nothing sensible to return.
#[derive(Clone, Copy, Debug, PartialEq, Eq, Structural)]
pub enum Fault {
    /// Accepting a connection failed with something other than "would block".
    Accept,
    /// Reading from an accepted connection failed.
    Read,
}

/// What the last step of a poll produced.
pub enum PollEvent {
    /// No connection is waiting.
    WouldBlock,
    /// Accepting a connection failed otherwise.
    AcceptFailed,
    /// The listener has no further connection to give (a TCP listener's
    /// stream of incoming connections never ends, but a poll that reaches
    /// its end parks).
    Exhausted,
    /// A connection was accepted.
    Accepted,
    /// The quit channel was asked; whether a quit message was taken from it
    /// (`false` where the transport has no quit channel).
    QuitChecked(bool),
    /// A read from the accepted connection gave these bytes.
    Chunk(Vec<u8>),
    /// A read from the accepted connection failed.
    ReadFailed,
}

/// The next step of a poll, for the caller to take.
pub enum PollAction {
    /// Take the next incoming connection from the listener.
    Accept,
    /// Try to take a quit message from the quit channel.
    CheckQuit,
    /// Read from the connection into a buffer with room for at most this many bytes.
    Read(usize),
    /// The message is complete: decode it and hand it out.
    Deliver(Vec<u8>),
    /// The transport is going down: register the waker and report "pending".
    Park,
    /// Give up with this fault.
    Abort(Fault),
}

/// A [`PollAction`] seen as values.
pub enum PollActionView {
    Accept,
    CheckQuit,
    Read(nat),
    Deliver(Seq<u8>),
    Park,
    Abort(Fault),
}

impl View for PollAction {
    type V = PollActionView;

    open spec fn view(&self) -> PollActionView {
        match self {
            PollAction::Accept => PollActionView::Accept,
            PollAction::CheckQuit => PollActionView::CheckQuit,
            PollAction::Read(n) => PollActionView::Read(*n as nat),
            PollAction::Deliver(m) => PollActionView::Deliver(m@),
            PollAction::Park => PollActionView::Park,
            PollAction::Abort(f) => PollActionView::Abort(*f),
        }
    }
}

/// Where a poll stands.
pub enum PollState {
    /// Waiting for the listener to give a connection.
    Accepting,
    /// Waiting to learn whether a quit message has come.
    CheckingQuit,
    /// Reading a connection's message into the inbox.
    Reading(InboxView),
    /// Done: this message was handed out.
    Delivered(Seq<u8>),
    /// Done: the transport is going down.
    Parked,
    /// Done: the poll gave up.
    Aborted(Fault),
}

impl PollState {
    /// Whether the poll has reached its end.
    pub open spec fn is_over(self) -> bool {
        self is Delivered || self is Parked || self is Aborted
    }

    /// Whether `e` is an answer to the step that this state asked for: the
    /// result of an accept, of a quit check, or of a read that did not give
    /// more than the room that was left.
    pub open spec fn accepts(self, e: PollEvent) -> bool {
        match self {
            PollState::Accepting => e is WouldBlock || e is AcceptFailed || e is Exhausted
                || e is Accepted,
            PollState::CheckingQuit => e is QuitChecked,
            PollState::Reading(inbox) => match e {
                PollEvent::Chunk(c) => c@.len() <= inbox.spare(),
                PollEvent::ReadFailed => true,
                _ => false,
            },
            _ => false,
        }
    }

    /// The state that follows event `e`; an event that is not accepted changes nothing.
    pub open spec fn after(self, e: PollEvent) -> PollState {
        if !self.accepts(e) {
            self
        } else {
            match self {
                PollState::Accepting => match e {
                    PollEvent::WouldBlock => PollState::CheckingQuit,
                    PollEvent::AcceptFailed => PollState::Aborted(Fault::Accept),
                    PollEvent::Exhausted => PollState::Parked,
                    _ => PollState::Reading(InboxView::empty(RECEIVE_CAPACITY as nat)),
                },
                PollState::CheckingQuit => match e {
                    PollEvent::QuitChecked(true) => PollState::Parked,
                    _ => PollState::Accepting,
                },
                PollState::Reading(inbox) => match e {
                    PollEvent::Chunk(c) => {
                        let next = inbox.absorb(c@);
                        if next.closed {
                            PollState::Delivered(next.received)
                        } else {
                            PollState::Reading(next)
                        }
                    },
                    _ => PollState::Aborted(Fault::Read),
                },
                _ => self,
            }
        }
    }

    /// The step that this state asks for.
    pub open spec fn asks(self) -> PollActionView {
        match self {
            PollState::Accepting => PollActionView::Accept,
            PollState::CheckingQuit => PollActionView::CheckQuit,
            PollState::Reading(inbox) => PollActionView::Read(inbox.spare() as nat),
            PollState::Delivered(m) => PollActionView::Deliver(m),
            PollState::Parked => PollActionView::Park,
            PollState::Aborted(f) => PollActionView::Abort(f),
        }
    }

    /// The state after the events `es`, taken one after another.
    pub open spec fn run(self, es: Seq<PollEvent>) -> PollState
        decreases es.len(),
    {
        if es.len() == 0 {
            self
        } else {
            self.after(es[0]).run(es.drop_first())
        }
    }

    /// Whether each of the events `es` is accepted by the state it reaches.
    pub open spec fn accepts_all(self, es: Seq<PollEvent>) -> bool
        decreases es.len(),
    {
        es.len() == 0 || (self.accepts(es[0]) && self.after(es[0]).accepts_all(es.drop_first()))
    }
}

enum Stage {
    Accepting,
    CheckingQuit,
    Reading(Inbox),
    Delivered(Ghost<Seq<u8>>),
    Parked,
    Aborted(Fault),
}

/// The decisions of one poll of a transport's listener for the next message.
///
/// The poll takes connections until one comes; while none is waiting it asks
/// whether the transport is going down, and parks if so. Once a connection is
/// accepted, it reads until a read gives nothing (the peer is done, or the
/// buffer of [`RECEIVE_CAPACITY`] bytes is full) and hands out what was read.
pub struct Poller {
    stage: Stage,
}

impl View for Poller {
    type V = PollState;

    closed spec fn view(&self) -> PollState {
        match self.stage {
            Stage::Accepting => PollState::Accepting,
            Stage::CheckingQuit => PollState::CheckingQuit,
            Stage::Reading(inbox) => PollState::Reading(inbox@),
            Stage::Delivered(m) => PollState::Delivered(m@),
            Stage::Parked => PollState::Parked,
            Stage::Aborted(f) => PollState::Aborted(f),
        }
    }
}

impl Poller {
    /// A poll that starts by taking the next incoming connection.
    pub fn new() -> (res: (Poller, PollAction))
        ensures
            res.0@ == PollState::Accepting,
            res.1@ == PollActionView::Accept,
    {
        (Poller { stage: Stage::Accepting }, PollAction::Accept)
    }

    /// Whether `e` answers the step this poll asked for.
    pub fn accepts(&self, e: &PollEvent) -> (ok: bool)
        ensures
            ok == self@.accepts(*e),
    {
        match &self.stage {
            Stage::Accepting => match e {
                PollEvent::WouldBlock | PollEvent::AcceptFailed | PollEvent::Exhausted
                | PollEvent::Accepted => true,
                _ => false,
            },
            Stage::CheckingQuit => match e {
                PollEvent::QuitChecked(_) => true,
                _ => false,
            },
            Stage::Reading(inbox) => match e {
                PollEvent::Chunk(c) => c.len() <= inbox.spare(),
                PollEvent::ReadFailed => true,
                _ => false,
            },
            _ => false,
        }
    }

    /// Takes in the result of the last step and returns the next one.
    pub fn on_event(&mut self, e: PollEvent) -> (action: PollAction)
        requires
            old(self)@.accepts(e),
        ensures
            final(self)@ == old(self)@.after(e),
            action@ == final(self)@.asks(),
    {
        let mut stage = Stage::Parked;
        std::mem::swap(&mut stage, &mut self.stage);
        match stage {
            Stage::Accepting => match e {
                PollEvent::WouldBlock => {
                    self.stage = Stage::CheckingQuit;
                    PollAction::CheckQuit
                },
                PollEvent::AcceptFailed => {
                    self.stage = Stage::Aborted(Fault::Accept);
                    PollAction::Abort(Fault::Accept)
                },
                PollEvent::Exhausted => {
                    self.stage = Stage::Parked;
                    PollAction::Park
                },
                _ => {
                    let inbox = Inbox::new(RECEIVE_CAPACITY);
                    let room = inbox.spare();
                    self.stage = Stage::Reading(inbox);
                    PollAction::Read(room)
                },
            },
            Stage::CheckingQuit => match e {
                PollEvent::QuitChecked(true) => {
                    self.stage = Stage::Parked;
                    PollAction::Park
                },
                _ => {
                    self.stage = Stage::Accepting;
                    PollAction::Accept
                },
            },
            Stage::Reading(inbox) => match e {
                PollEvent::Chunk(c) => {
                    let next = inbox.absorb(c.as_slice());
                    if next.is_closed() {
                        let ghost message = next@.received;
                        let bytes = next.into_message();
                        self.stage = Stage::Delivered(Ghost(message));
                        PollAction::Deliver(bytes)
                    } else {
                        let room = next.spare();
                        self.stage = Stage::Reading(next);
                        PollAction::Read(room)
                    }
                },
                _ => {
                    self.stage = Stage::Aborted(Fault::Read);
                    PollAction::Abort(Fault::Read)
                },
            },
            Stage::Delivered(m) => {
                self.stage = Stage::Delivered(m);
                PollAction::Park
            },
            Stage::Parked => {
                self.stage = Stage::Parked;
                PollAction::Park
            },
            Stage::Aborted(f) => {
                self.stage = Stage::Aborted(f);
                PollAction::Abort(f)
            },
        }
    }
}

/// The read events that give `chunks`, one after another.
pub open spec fn chunk_events(chunks: Seq<Vec<u8>>) -> Seq<PollEvent> {
    chunks.map_values(|c: Vec<u8>| PollEvent::Chunk(c))
}

/// The bytes of each of `chunks`.
pub open spec fn chunk_bytes(chunks: Seq<Vec<u8>>) -> Seq<Seq<u8>> {
    chunks.map_values(|c: Vec<u8>| c@)
}

/// Whether `chunks` is how a connection's reads can go: every read gives
/// something but the last one, which gives nothing, and all of it fits in
/// `room` bytes.
pub open spec fn reads_until_empty(chunks: Seq<Vec<u8>>, room: int) -> bool {
    &&& chunks.len() > 0
    &&& chunks.last()@.len() == 0
    &&& forall|i: int| 0 <= i < chunks.len() - 1 ==> #[trigger] chunks[i]@.len() > 0
    &&& chunk_bytes(chunks).flatten().len() <= room
}

proof fn lemma_reading_until_empty(inbox: InboxView, chunks: Seq<Vec<u8>>)
    requires
        !inbox.closed,
        reads_until_empty(chunks, inbox.spare()),
    ensures
        PollState::Reading(inbox).accepts_all(chunk_events(chunks)),
        PollState::Reading(inbox).run(chunk_events(chunks)) == PollState::Delivered(
            inbox.received + chunk_bytes(chunks).flatten(),
        ),
    decreases chunks.len(),
{
    let es = chunk_events(chunks);
    let bs = chunk_bytes(chunks);
    let rest = chunks.drop_first();
    assert(es[0] == PollEvent::Chunk(chunks[0]));
    assert(es.drop_first() == chunk_events(rest));
    assert(bs.drop_first() == chunk_bytes(rest));
    assert(bs.flatten() == chunks[0]@ + chunk_bytes(rest).flatten());
    let first = PollState::Reading(inbox);
    assert(first.accepts(es[0]));
    if chunks.len() == 1 {
        assert(chunks[0]@.len() == 0);
        assert(rest.len() == 0);
        assert(chunk_bytes(rest).flatten() == Seq::<u8>::empty());
        assert(bs.flatten() == Seq::<u8>::empty());
        assert(inbox.received + Seq::<u8>::empty() == inbox.received);
        assert(first.after(es[0]) == PollState::Delivered(inbox.received));
        assert(first.after(es[0]).run(es.drop_first()) == first.after(es[0]));
        assert(first.after(es[0]).accepts_all(es.drop_first()));
    } else {
        assert(chunks[0]@.len() > 0);
        let next = inbox.absorb(chunks[0]@);
        assert forall|i: int| 0 <= i < rest.len() - 1 implies #[trigger] rest[i]@.len() > 0 by {
            assert(rest[i] == chunks[i + 1]);
        }
        assert(rest.last() == chunks.last());
        lemma_reading_until_empty(next, rest);
        assert(first.after(es[0]) == PollState::Reading(next));
        assert(next.received + chunk_bytes(rest).flatten() == inbox.received + bs.flatten());
    }
}

/// What is read is what is delivered: after a connection is accepted, reads
/// that each give something and then one that gives nothing, all within
/// [`RECEIVE_CAPACITY`] bytes, are each accepted, and the poll ends by
/// delivering exactly those bytes, in the order they were read.
pub proof fn lemma_delivers_what_was_read(chunks: Seq<Vec<u8>>)
    requires
        reads_until_empty(chunks, RECEIVE_CAPACITY as int),
    ensures
        PollState::Accepting.accepts_all(seq![PollEvent::Accepted] + chunk_events(chunks)),
        PollState::Accepting.run(seq![PollEvent::Accepted] + chunk_events(chunks))
            == PollState::Delivered(chunk_bytes(chunks).flatten()),
        PollState::Accepting.run(seq![PollEvent::Accepted] + chunk_events(chunks)).asks()
            == PollActionView::Deliver(chunk_bytes(chunks).flatten()),
{
    let es = seq![PollEvent::Accepted] + chunk_events(chunks);
    let inbox = InboxView::empty(RECEIVE_CAPACITY as nat);
    assert(es[0] == PollEvent::Accepted);
    assert(es.drop_first() == chunk_events(chunks));
    lemma_reading_until_empty(inbox, chunks);
    assert(inbox.received + chunk_bytes(chunks).flatten() == chunk_bytes(chunks).flatten());
}

proof fn lemma_reading_nonempty(inbox: InboxView, chunks: Seq<Vec<u8>>)
    requires
        !inbox.closed,
        forall|i: int| 0 <= i < chunks.len() ==> #[trigger] chunks[i]@.len() > 0,
        chunk_bytes(chunks).flatten().len() <= inbox.spare(),
    ensures
        PollState::Reading(inbox).accepts_all(chunk_events(chunks)),
        PollState::Reading(inbox).run(chunk_events(chunks)) == PollState::Reading(
            InboxView {
                received: inbox.received + chunk_bytes(chunks).flatten(),
                capacity: inbox.capacity,
                closed: false,
            },
        ),
    decreases chunks.len(),
{
    let es = chunk_events(chunks);
    let bs = chunk_bytes(chunks);
    if chunks.len() == 0 {
        assert(bs.flatten() == Seq::<u8>::empty());
        assert(inbox.received + Seq::<u8>::empty() == inbox.received);
    } else {
        let rest = chunks.drop_first();
        assert(es[0] == PollEvent::Chunk(chunks[0]));
        assert(es.drop_first() == chunk_events(rest));
        assert(bs.drop_first() == chunk_bytes(rest));
        assert(bs.flatten() == chunks[0]@ + chunk_bytes(rest).flatten());
        let first = PollState::Reading(inbox);
        assert(chunks[0]@.len() > 0);
        assert(first.accepts(es[0]));
        let next = inbox.absorb(chunks[0]@);
        assert(first.after(es[0]) == PollState::Reading(next));
        assert forall|i: int| 0 <= i < rest.len() implies #[trigger] rest[i]@.len() > 0 by {
            assert(rest[i] == chunks[i + 1]);
        }
        lemma_reading_nonempty(next, rest);
        assert(next.received + chunk_bytes(rest).flatten() == inbox.received + bs.flatten());
    }
}

/// While a message is being read, the poll asks each time for a read into
/// exactly the room left in the buffer: after an accepted connection whose
/// reads gave non-empty `chunks`, within [`RECEIVE_CAPACITY`] bytes in all, it
/// has kept every byte and asks for a read of up to the capacity less what it
/// holds. The message ends only with an empty read.
pub proof fn lemma_reads_ask_for_the_room_left(chunks: Seq<Vec<u8>>)
    requires
        forall|i: int| 0 <= i < chunks.len() ==> #[trigger] chunks[i]@.len() > 0,
        chunk_bytes(chunks).flatten().len() <= RECEIVE_CAPACITY,
    ensures
        PollState::Accepting.accepts_all(seq![PollEvent::Accepted] + chunk_events(chunks)),
        PollState::Accepting.run(seq![PollEvent::Accepted] + chunk_events(chunks)).asks()
            == PollActionView::Read((RECEIVE_CAPACITY - chunk_bytes(chunks).flatten().len()) as nat),
        PollState::Accepting.run(seq![PollEvent::Accepted] + chunk_events(chunks)) matches PollState::Reading(
            inbox,
        ) && inbox.received == chunk_bytes(chunks).flatten() && !inbox.closed,
{
    let es = seq![PollEvent::Accepted] + chunk_events(chunks);
    let inbox = InboxView::empty(RECEIVE_CAPACITY as nat);
    assert(es[0] == PollEvent::Accepted);
    assert(es.drop_first() == chunk_events(chunks));
    lemma_reading_nonempty(inbox, chunks);
    assert(inbox.received + chunk_bytes(chunks).flatten() == chunk_bytes(chunks).flatten());
}

/// While no connection is waiting, the poll asks whether a quit message came:
/// if one did, it parks; if not, it goes back to taking connections. A failed
/// accept or a failed read makes it give up with that fault.
pub proof fn lemma_waits_until_quit(quit: bool)
    ensures
        PollState::Accepting.accepts_all(seq![PollEvent::WouldBlock, PollEvent::QuitChecked(quit)]),
        PollState::Accepting.run(seq![PollEvent::WouldBlock]).asks() == PollActionView::CheckQuit,
        PollState::Accepting.run(seq![PollEvent::WouldBlock, PollEvent::QuitChecked(quit)]).asks()
            == (if quit { PollActionView::Park } else { PollActionView::Accept }),
        PollState::Accepting.run(seq![PollEvent::AcceptFailed]).asks() == PollActionView::Abort(
            Fault::Accept,
        ),
        PollState::Accepting.run(seq![PollEvent::Accepted, PollEvent::ReadFailed]).asks()
            == PollActionView::Abort(Fault::Read),
{
    let a = seq![PollEvent::WouldBlock, PollEvent::QuitChecked(quit)];
    let a1 = a.drop_first();
    assert(a1 == seq![PollEvent::QuitChecked(quit)]);
    assert(a1.drop_first().len() == 0);
    let s1 = PollState::Accepting.after(a[0]);
    assert(s1 == PollState::CheckingQuit);
    let s2 = s1.after(a1[0]);
    assert(s2.run(a1.drop_first()) == s2);
    assert(s2.accepts_all(a1.drop_first()));
    assert(s1.accepts_all(a1));
    assert(s1.run(a1) == s2.run(a1.drop_first()));
    assert(PollState::Accepting.run(a) == s1.run(a1));
    let w = seq![PollEvent::WouldBlock];
    assert(w.drop_first().len() == 0);
    assert(s1.run(w.drop_first()) == s1);
    assert(PollState::Accepting.run(w) == s1);
    let f = seq![PollEvent::AcceptFailed];
    assert(f.drop_first().len() == 0);
    let t1 = PollState::Accepting.after(f[0]);
    assert(t1.run(f.drop_first()) == t1);
    assert(PollState::Accepting.run(f) == t1);
    let b = seq![PollEvent::Accepted, PollEvent::ReadFailed];
    let b1 = b.drop_first();
    assert(b1 == seq![PollEvent::ReadFailed]);
    assert(b1.drop_first().len() == 0);
    let r1 = PollState::Accepting.after(b[0]);
    let r2 = r1.after(b1[0]);
    assert(r2 == PollState::Aborted(Fault::Read));
    assert(r2.run(b1.drop_first()) == r2);
    assert(r1.run(b1) == r2.run(b1.drop_first()));
    assert(PollState::Accepting.run(b) == r1.run(b1));
}

/// A poll parks only after it has learned that a quit message came, or that
/// the listener has no further connection to give.
pub proof fn lemma_parks_only_on_quit(s: PollState, es: Seq<PollEvent>)
    requires
        !(s is Parked),
        s.run(es) is Parked,
    ensures
        exists|i: int|
            0 <= i < es.len() && (es[i] == PollEvent::QuitChecked(true) || es[i] == PollEvent::Exhausted),
    decreases es.len(),
{
    if es.len() == 0 {
    } else {
        let next = s.after(es[0]);
        if next is Parked {
            assert(es[0] == PollEvent::QuitChecked(true) || es[0] == PollEvent::Exhausted);
        } else {
            lemma_parks_only_on_quit(next, es.drop_first());
            let i = choose|i: int|
                0 <= i < es.drop_first().len() && (es.drop_first()[i] == PollEvent::QuitChecked(true)
                    || es.drop_first()[i] == PollEvent::Exhausted);
            assert(es[i + 1] == es.drop_first()[i]);
        }
    }
}

/// A poll that has ended stays as it is: no event is accepted any more.
pub proof fn lemma_over_is_final(s: PollState, es: Seq<PollEvent>)
    requires
        s.is_over(),
    ensures
        s.run(es) == s,
        es.len() > 0 ==> !s.accepts_all(es),
    decreases es.len(),
{
    if es.len() > 0 {
        lemma_over_is_final(s.after(es[0]), es.drop_first());
    }
}

/// What the listener thread does next, once it has asked its quit channel.
pub enum ListenerAction {
    /// A quit message came: leave the loop.
    Stop,
    /// Wake the task that parked on this transport, if any, and ask again.
    WakeParked,
}

/// The listener thread's decision after asking its quit channel: it stops
/// exactly when a quit message was taken (never, where there is no channel).
pub fn listener_next(quit_received: bool) -> (action: ListenerAction)
    ensures
        action is Stop <==> quit_received,
{
    if quit_received {
        ListenerAction::Stop
    } else {
        ListenerAction::WakeParked
    }
}

} // verus!
