//! Signals: the messages that travel between rooms.
use crate::clock::now_ms;
use vstd::prelude::*;

verus! {

/// The kind of signal being transmitted between rooms.
#[derive(Debug, Clone, Copy, PartialEq, Eq, Hash, Structural)]
pub enum SignalType {
    Tick,
    Murmur,
    Prediction,
    Surprise,
    GcReport,
    VibeShift,
    LoRATrigger,
    BalanceAlert,
    CorrelationUpdate,
    EnergyUpdate,
}

/// A message travelling through the signal chain.
#[derive(Debug)]
pub struct Signal {
    pub source: String,
    pub target: String,
    pub signal_type: SignalType,
    pub payload: Vec<u8>,
    /// Optional embedding vector (e.g. for similarity / correlation). Each component is the bit
    /// pattern of a double precision number.
    pub embedding: Vec<u64>,
    pub priority: u8,
    pub timestamp: u64,
    pub id: u64,
}

/// What a [`Signal`] says.
#[verifier::ext_equal]
pub struct SignalView {
    pub source: Seq<char>,
    pub target: Seq<char>,
    pub signal_type: SignalType,
    pub payload: Seq<u8>,
    pub embedding: Seq<u64>,
    pub priority: u8,
    pub timestamp: u64,
    pub id: u64,
}

impl View for Signal {
    type V = SignalView;

    open spec fn view(&self) -> SignalView {
        SignalView {
            source: self.source@,
            target: self.target@,
            signal_type: self.signal_type,
            payload: self.payload@,
            embedding: self.embedding@,
            priority: self.priority,
            timestamp: self.timestamp,
            id: self.id,
        }
    }
}

impl Clone for Signal {
    fn clone(&self) -> (r: Self)
        ensures
            r@ == self@,
    {
        let r = Signal {
            source: self.source.clone(),
            target: self.target.clone(),
            signal_type: self.signal_type,
            payload: self.payload.clone(),
            embedding: self.embedding.clone(),
            priority: self.priority,
            timestamp: self.timestamp,
            id: self.id,
        };
        assert(r@ =~= self@);
        r
    }
}

/// Tells whether two payloads are the same bytes.
pub fn same_payload(a: &Vec<u8>, b: &Vec<u8>) -> (r: bool)
    ensures
        r == (a@ == b@),
{
    let r = *a == *b;
    if r {
        assert(a@ =~= b@);
    }
    r
}

/// Hands out the numbers by which signals are told apart.
#[derive(Debug)]
pub struct IdCounter {
    /// The number handed out last; zero before the first.
    pub last: u64,
}

impl IdCounter {
    /// A counter that has handed out nothing yet.
    pub fn new() -> (r: Self)
        ensures
            r.last == 0,
    {
        IdCounter { last: 0 }
    }

    /// Hands out the next number.
    pub fn next_id(&mut self) -> (r: u64)
        requires
            old(self).last < u64::MAX,
        ensures
            r == old(self).last + 1,
            final(self).last == r,
    {
        self.last = self.last + 1;
        self.last
    }
}

impl Signal {
    /// A signal with an empty payload, an empty embedding and priority 5, stamped with the current
    /// time and with the next number of `ids`.
    pub fn new(source: &str, target: &str, signal_type: SignalType, ids: &mut IdCounter) -> (r:
        Signal)
        requires
            old(ids).last < u64::MAX,
        ensures
            final(ids).last == old(ids).last + 1,
            r@ == blank(source@, target@, signal_type, r.timestamp, final(ids).last),
    {
        let timestamp: u64 = now_ms();
        let id: u64 = ids.next_id();
        Signal::stamped(source, target, signal_type, timestamp, id)
    }

    /// A signal with an empty payload, an empty embedding and priority 5, with the timestamp and
    /// the number given.
    pub fn stamped(
        source: &str,
        target: &str,
        signal_type: SignalType,
        timestamp: u64,
        id: u64,
    ) -> (r: Signal)
        ensures
            r@ == blank(source@, target@, signal_type, timestamp, id),
    {
        let r = Signal {
            source: source.to_owned(),
            target: target.to_owned(),
            signal_type,
            payload: Vec::new(),
            embedding: Vec::new(),
            priority: 5,
            timestamp,
            id,
        };
        assert(r@ =~= blank(source@, target@, signal_type, timestamp, id));
        r
    }

    /// The same signal with another payload.
    pub fn with_payload(self, payload: Vec<u8>) -> (r: Signal)
        ensures
            r@ == (SignalView { payload: payload@, ..self@ }),
    {
        let mut r = self;
        r.payload = payload;
        r
    }

    /// The same signal with another embedding.
    pub fn with_embedding(self, embedding: Vec<u64>) -> (r: Signal)
        ensures
            r@ == (SignalView { embedding: embedding@, ..self@ }),
    {
        let mut r = self;
        r.embedding = embedding;
        r
    }

    /// The same signal with another priority.
    pub fn with_priority(self, priority: u8) -> (r: Signal)
        ensures
            r@ == (SignalView { priority, ..self@ }),
    {
        let mut r = self;
        r.priority = priority;
        r
    }
}

/// A signal that carries nothing yet.
pub open spec fn blank(
    source: Seq<char>,
    target: Seq<char>,
    signal_type: SignalType,
    timestamp: u64,
    id: u64,
) -> SignalView {
    SignalView {
        source,
        target,
        signal_type,
        payload: Seq::empty(),
        embedding: Seq::empty(),
        priority: 5,
        timestamp,
        id,
    }
}

} // verus!
