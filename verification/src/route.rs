//! Routes between rooms, and the rules by which they let signals pass.
use crate::signal::same_payload;
use crate::signal::Signal;
use crate::signal::SignalView;
use vstd::prelude::*;

verus! {

/// Routing algorithm for a given path.
#[derive(Debug, Clone, Copy, PartialEq, Eq, Hash, Structural)]
pub enum RoutingAlgorithm {
    /// Immediate delivery, no buffering.
    Direct,
    /// Buffer and deliver in FIFO order.
    Buffered,
    /// Only deliver signals whose priority reaches the threshold.
    Correlated { threshold: u8 },
    /// Only deliver when the payload differs from the last delivered payload.
    OnChange,
    /// Deliver at most once per `interval_ms`.
    Sampled { interval_ms: u64 },
    /// Dynamically switch between algorithms based on load: `Direct` if it is low, `Buffered`
    /// otherwise. Both deliver.
    Adaptive,
}

/// A route connecting two rooms.
#[derive(Debug)]
pub struct Route {
    pub from: String,
    pub to: String,
    pub algorithm: RoutingAlgorithm,
    /// Last value sent through this route (for OnChange / deadband).
    pub last_payload: Option<Vec<u8>>,
    /// Timestamp of last delivery (for Sampled).
    pub last_sent: u64,
}

/// What a [`Route`] holds.
#[verifier::ext_equal]
pub struct RouteView {
    pub from: Seq<char>,
    pub to: Seq<char>,
    pub algorithm: RoutingAlgorithm,
    pub last_payload: Option<Seq<u8>>,
    pub last_sent: u64,
}

impl View for Route {
    type V = RouteView;

    open spec fn view(&self) -> RouteView {
        RouteView {
            from: self.from@,
            to: self.to@,
            algorithm: self.algorithm,
            last_payload: match self.last_payload {
                Some(p) => Some(p@),
                None => None,
            },
            last_sent: self.last_sent,
        }
    }
}

/// What the routes of a list hold, in order.
pub open spec fn route_views(routes: Seq<Route>) -> Seq<RouteView> {
    routes.map_values(|r: Route| r@)
}

impl Clone for Route {
    fn clone(&self) -> (r: Self)
        ensures
            r@ == self@,
    {
        let r = Route {
            from: self.from.clone(),
            to: self.to.clone(),
            algorithm: self.algorithm,
            last_payload: match &self.last_payload {
                Some(p) => Some(p.clone()),
                None => None,
            },
            last_sent: self.last_sent,
        };
        assert(r@.last_payload =~= self@.last_payload);
        r
    }
}

/// A route that nothing has passed yet.
pub open spec fn fresh_route(
    from: Seq<char>,
    to: Seq<char>,
    algorithm: RoutingAlgorithm,
) -> RouteView {
    RouteView { from, to, algorithm, last_payload: None, last_sent: 0 }
}

/// The route lets `signal` pass at time `now`.
pub open spec fn passes(route: RouteView, signal: SignalView, now: u64) -> bool {
    match route.algorithm {
        RoutingAlgorithm::Direct => true,
        RoutingAlgorithm::Buffered => true,
        RoutingAlgorithm::Correlated { threshold } => signal.priority >= threshold,
        RoutingAlgorithm::OnChange => route.last_payload != Some(signal.payload),
        RoutingAlgorithm::Sampled { interval_ms } => if now >= route.last_sent {
            now - route.last_sent >= interval_ms
        } else {
            interval_ms == 0
        },
        RoutingAlgorithm::Adaptive => true,
    }
}

/// The route after `signal` has passed it at time `now`.
pub open spec fn passed(route: RouteView, signal: SignalView, now: u64) -> RouteView {
    RouteView { last_payload: Some(signal.payload), last_sent: now, ..route }
}

impl Route {
    /// A route that nothing has passed yet.
    pub fn new(from: &str, to: &str, algorithm: RoutingAlgorithm) -> (r: Route)
        ensures
            r@ == fresh_route(from@, to@, algorithm),
    {
        Route {
            from: from.to_owned(),
            to: to.to_owned(),
            algorithm,
            last_payload: None,
            last_sent: 0,
        }
    }

    /// Tells whether the route lets `signal` pass at time `now`.
    pub fn should_deliver(&self, signal: &Signal, now: u64) -> (r: bool)
        ensures
            r == passes(self@, signal@, now),
    {
        match self.algorithm {
            RoutingAlgorithm::Direct => true,
            RoutingAlgorithm::Buffered => true,
            RoutingAlgorithm::Correlated { threshold } => signal.priority >= threshold,
            RoutingAlgorithm::OnChange => match &self.last_payload {
                Some(last) => !same_payload(last, &signal.payload),
                None => true,
            },
            RoutingAlgorithm::Sampled { interval_ms } => now.saturating_sub(self.last_sent)
                >= interval_ms,
            RoutingAlgorithm::Adaptive => true,
        }
    }

    /// Remembers that `signal` has passed the route at time `now`.
    pub fn record(&mut self, signal: &Signal, now: u64)
        ensures
            final(self)@ == passed(old(self)@, signal@, now),
    {
        self.last_payload = Some(signal.payload.clone());
        self.last_sent = now;
        assert(self@.last_payload =~= Some(signal@.payload));
    }
}

} // verus!
