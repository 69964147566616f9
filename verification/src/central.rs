//! Serving one Bluetooth central at a time.
//!
//! One session per subscription, not one per service: a client that vanishes
//! mid-request would otherwise leave a partial line behind for the next one. The
//! slot names the session that writes go to. The radio, the queues and the sessions
//! themselves are the caller's.

use vstd::prelude::*;
use crate::proto::API_VERSION;
use crate::span::Span;

verus! {

/// Notification payload assumed for outbound chunks: what every link supports.
pub const FLOOR_MTU: usize = 20;

/// Seconds between attempts to find a usable adapter.
pub const ADAPTER_RETRY_SECS: u64 = 5;

/// How much of a chunk is logged, to make a reordering visible. No more, because a
/// request may carry a passphrase.
pub const LOGGED_HEAD: usize = 8;

/// How the service is set up.
#[derive(Debug, Clone, Copy, PartialEq, Eq, Structural)]
pub struct Setup {
    /// Make the adapter pairable.
    pub pairable: bool,
    /// Register an agent that lets a central bond without interaction.
    pub agent: bool,
    pub encrypt_read: bool,
    pub encrypt_write: bool,
}

/// The setup with pairing required, or not.
pub open spec fn setup_for(require_pairing: bool) -> Setup {
    Setup {
        pairable: require_pairing,
        agent: require_pairing,
        encrypt_read: require_pairing,
        encrypt_write: require_pairing,
    }
}

/// The setup with pairing required, or not: every measure together, or none.
pub fn setup(require_pairing: bool) -> (s: Setup)
    ensures
        s == setup_for(require_pairing),
{
    Setup {
        pairable: require_pairing,
        agent: require_pairing,
        encrypt_read: require_pairing,
        encrypt_write: require_pairing,
    }
}

/// What to do about the adapter: go on with it, or wait and look again. The service
/// never gives up, since on this board the adapter appears late.
pub fn adapter_wait(present: bool) -> (wait: Option<Span>)
    ensures
        present ==> wait is None,
        !present ==> (wait matches Some(w) && w.spec_nanos() == 5_000_000_000),
{
    if present {
        None
    } else {
        Some(Span::from_secs(ADAPTER_RETRY_SECS))
    }
}

/// What reading the characteristic gives: the protocol version, in one byte.
pub fn version_read() -> (value: Vec<u8>)
    ensures
        value@ == seq![API_VERSION as u8],
{
    let mut value: Vec<u8> = Vec::new();
    value.push(API_VERSION as u8);
    assert(value@ =~= seq![API_VERSION as u8]);
    value
}

/// The part of a chunk that is logged.
pub open spec fn head_of(chunk: Seq<u8>) -> Seq<u8> {
    if chunk.len() <= LOGGED_HEAD {
        chunk
    } else {
        chunk.take(LOGGED_HEAD as int)
    }
}

/// The part of a chunk that is logged.
pub fn logged_head(chunk: &[u8]) -> (head: Vec<u8>)
    ensures
        head@ == head_of(chunk@),
{
    let n: usize = if chunk.len() <= LOGGED_HEAD {
        chunk.len()
    } else {
        LOGGED_HEAD
    };
    let mut head: Vec<u8> = Vec::new();
    let mut i: usize = 0;
    while i < n
        invariant
            i <= n <= chunk.len(),
            head@ == chunk@.take(i as int),
        decreases n - i,
    {
        head.push(chunk[i]);
        i = i + 1;
        assert(chunk@.take(i as int) =~= chunk@.take(i - 1).push(chunk@[i - 1]));
    }
    assert(chunk@.take(chunk.len() as int) =~= chunk@);
    head
}

/// Whether a session's inbound queue takes a chunk.
#[derive(Debug, Clone, Copy, PartialEq, Eq, Structural)]
pub enum Queue {
    Taken,
    Full,
    Closed,
}

/// Why a write was refused.
#[derive(Debug, Clone, Copy, PartialEq, Eq, Structural)]
pub enum WriteRefusal {
    /// There would be nowhere to send the answer.
    NoSubscription,
    /// The client resends; dropping the chunk would corrupt the line.
    QueueFull,
    SessionEnded,
}

/// What comes of a write, by what the current session's queue said.
pub open spec fn outcome(queue: Option<Queue>) -> Result<(), WriteRefusal> {
    match queue {
        None => Err(WriteRefusal::NoSubscription),
        Some(Queue::Taken) => Ok(()),
        Some(Queue::Full) => Err(WriteRefusal::QueueFull),
        Some(Queue::Closed) => Err(WriteRefusal::SessionEnded),
    }
}

/// The answer to a write: `queue` is what the current session's queue said, or `None`
/// when there is no session.
pub fn write_answer(queue: Option<Queue>) -> (answer: Result<(), WriteRefusal>)
    ensures
        answer == outcome(queue),
{
    match queue {
        None => Err(WriteRefusal::NoSubscription),
        Some(Queue::Taken) => Ok(()),
        Some(Queue::Full) => Err(WriteRefusal::QueueFull),
        Some(Queue::Closed) => Err(WriteRefusal::SessionEnded),
    }
}

/// What the pump that sends a session's answers does next.
pub enum Pump {
    Notify(Vec<u8>),
    /// The subscription is over.
    End,
}

/// What the pump learns.
pub enum PumpEvent {
    /// The central unsubscribed.
    Stopped,
    /// A chunk to send, or `None` when the session has no more.
    Chunk(Option<Vec<u8>>),
    /// A notification could not be sent.
    NotifyFailed,
}

/// What the pump does about an event.
pub open spec fn next_for(event: PumpEvent) -> Pump {
    match event {
        PumpEvent::Chunk(Some(chunk)) => Pump::Notify(chunk),
        _ => Pump::End,
    }
}

/// The pump goes on exactly while there are chunks to send to a central that is there.
pub fn pump(event: PumpEvent) -> (next: Pump)
    ensures
        next == next_for(event),
{
    match event {
        PumpEvent::Chunk(Some(chunk)) => Pump::Notify(chunk),
        _ => Pump::End,
    }
}

/// The slot that names the session which writes go to. Sessions are numbered as they
/// come.
pub struct Slot {
    current: Option<u64>,
    next: u64,
}

impl Slot {
    /// The session that holds the slot.
    pub closed spec fn holder(&self) -> Option<u64> {
        self.current
    }

    /// How many sessions there have been.
    pub closed spec fn issued(&self) -> u64 {
        self.next
    }

    /// Only a session that there has been holds the slot.
    pub open spec fn well_formed(&self) -> bool {
        self.holder() matches Some(id) ==> id < self.issued()
    }

    pub fn new() -> (slot: Self)
        ensures
            slot.well_formed(),
            slot.holder() is None,
            slot.issued() == 0,
    {
        Slot { current: None, next: 0 }
    }

    /// The session that a write goes to now.
    pub fn current(&self) -> (id: Option<u64>)
        ensures
            id == self.holder(),
    {
        self.current
    }

    /// Gives the slot to a fresh session; says which one it replaced.
    pub fn subscribe(&mut self) -> (given: (u64, Option<u64>))
        requires
            old(self).well_formed(),
            old(self).issued() < u64::MAX,
        ensures
            final(self).well_formed(),
            given.0 == old(self).issued(),
            given.1 == old(self).holder(),
            final(self).holder() == Some(given.0),
            final(self).issued() == old(self).issued() + 1,
            taken(*old(self), *final(self), given.0),
    {
        let id: u64 = self.next;
        let replaced = self.current;
        self.current = Some(id);
        self.next = id + 1;
        (id, replaced)
    }

    /// A session's subscription is over. The slot is cleared only if it is still that
    /// session's; says whether it was.
    pub fn unsubscribe(&mut self, id: u64) -> (cleared: bool)
        requires
            old(self).well_formed(),
        ensures
            final(self).well_formed(),
            final(self).issued() == old(self).issued(),
            cleared == (old(self).holder() == Some(id)),
            final(self).holder() == if cleared {
                None
            } else {
                old(self).holder()
            },
            given_up(*old(self), *final(self), id),
    {
        let mine = match self.current {
            Some(current) => current == id,
            None => false,
        };
        if mine {
            self.current = None;
        }
        mine
    }
}

/// A slot after some session took it.
pub open spec fn taken(before: Slot, after: Slot, id: u64) -> bool {
    id == before.issued() && after.holder() == Some(id) && after.issued() == before.issued() + 1
}

/// A slot after the session `id` gave it up.
pub open spec fn given_up(before: Slot, after: Slot, id: u64) -> bool {
    after.issued() == before.issued() && after.holder() == if before.holder() == Some(id) {
        None
    } else {
        before.holder()
    }
}

/// A pump that outlives its subscription never takes the slot from a session that
/// subscribed after it.
pub proof fn law_newer_session_keeps_the_slot(
    s0: Slot,
    s1: Slot,
    s2: Slot,
    s3: Slot,
    old_id: u64,
    new_id: u64,
)
    requires
        s0.well_formed(),
        taken(s0, s1, old_id),
        taken(s1, s2, new_id),
        given_up(s2, s3, old_id),
    ensures
        s3.holder() == Some(new_id),
{
}

/// A session that unsubscribes while it holds the slot leaves it empty, so that the
/// next write is refused.
pub proof fn law_unsubscribed_slot_is_empty(s0: Slot, s1: Slot, s2: Slot, id: u64)
    requires
        taken(s0, s1, id),
        given_up(s1, s2, id),
    ensures
        s2.holder() is None,
{
}

/// Pairing is required by every measure together or by none.
pub proof fn law_pairing_is_all_or_nothing(require_pairing: bool)
    ensures
        require_pairing ==> {
            let s = setup_for(require_pairing);
            s.pairable && s.agent && s.encrypt_read && s.encrypt_write
        },
        !require_pairing ==> {
            let s = setup_for(require_pairing);
            !s.pairable && !s.agent && !s.encrypt_read && !s.encrypt_write
        },
{
}

/// A write succeeds exactly when the current session's queue took the chunk: nothing is
/// dropped in silence.
pub proof fn law_a_write_is_never_lost(queue: Option<Queue>)
    ensures
        outcome(queue) is Ok <==> queue == Some(Queue::Taken),
        queue is None ==> outcome(queue) == Err::<(), WriteRefusal>(WriteRefusal::NoSubscription),
        queue == Some(Queue::Full) ==> outcome(queue) == Err::<(), WriteRefusal>(
            WriteRefusal::QueueFull,
        ),
        queue == Some(Queue::Closed) ==> outcome(queue) == Err::<(), WriteRefusal>(
            WriteRefusal::SessionEnded,
        ),
{
}

/// What is logged of a chunk is its start, and no more than eight bytes of it.
pub proof fn law_little_is_logged(chunk: Seq<u8>)
    ensures
        head_of(chunk).len() <= 8,
        chunk.len() <= 8 ==> head_of(chunk) == chunk,
        chunk.len() >= 8 ==> head_of(chunk).len() == 8,
        forall|i: int| 0 <= i < head_of(chunk).len() ==> #[trigger] head_of(chunk)[i] == chunk[i],
{
}

/// The pump sends each chunk as it is, and ends when the central has gone, when the
/// session has no more to say, and when sending fails.
pub proof fn law_the_pump_sends_what_it_gets(event: PumpEvent)
    ensures
        event matches PumpEvent::Chunk(Some(chunk)) ==> (next_for(event) matches Pump::Notify(sent)
            && sent@ == chunk@),
        event is Stopped || event is NotifyFailed || event == PumpEvent::Chunk(None) ==> next_for(
            event,
        ) is End,
{
}

} // verus!
