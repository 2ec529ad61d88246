//! The central signal chain: routes signals between registered rooms.
use crate::clock::now_ms;
use crate::deadband::depends_on_distance;
use crate::deadband::is_measured;
use crate::deadband::is_total;
use crate::deadband::measure;
use crate::deadband::within_deadband;
use crate::deadband::DeadbandConfig;
use crate::model::audience;
use crate::model::broadcasted;
use crate::model::counters_allow;
use crate::model::counters_fit;
use crate::model::drained;
use crate::model::empty_chain;
use crate::model::has_way_out;
use crate::model::lemma_drained_valid;
use crate::model::lemma_pending_insert;
use crate::model::lemma_sent_over_none;
use crate::model::lemma_sent_over_valid;
use crate::model::lemma_sent_step;
use crate::model::lemma_tally_grows;
use crate::model::lemma_valid_carries_over;
use crate::model::lemma_with_room_valid;
use crate::model::lemma_with_route_valid;
use crate::model::pending;
use crate::model::refusal;
use crate::model::sent;
use crate::model::sent_over;
use crate::model::waiting;
use crate::model::ways_out;
use crate::model::with_room;
use crate::model::with_route;
use crate::model::ChainStats;
use crate::model::ChainView;
use crate::model::Outcome;
use crate::path::find_walk;
use crate::path::hops;
use crate::path::is_first_choice;
use crate::path::leads;
use crate::path::names_along;
use crate::path::rooms_along;
use crate::port::queue_view;
use crate::port::Open;
use crate::port::Port;
use crate::route::passed;
use crate::route::route_views;
use crate::route::Route;
use crate::route::RoutingAlgorithm;
use crate::signal::Signal;
use crate::signal::SignalView;
use crate::storm::peak;
use crate::storm::peak_of;
use vstd::hash_map::StringHashMap;
use vstd::prelude::*;

verus! {

/// The central signal chain: routes signals between registered rooms.
pub struct SignalChain {
    /// Where the port of each room stands in `ports`.
    positions: StringHashMap<usize>,
    /// The ports of the rooms, in the order in which the rooms were registered.
    ports: Vec<Port<Open, Open>>,
    routes: Vec<Route>,
    /// The signal that each route delivered last.
    last_signal: Vec<Option<Signal>>,
    deadband: DeadbandConfig,
    stats: ChainStats,
}

/// What waits in each room.
spec fn rooms_of(
    positions: Map<Seq<char>, usize>,
    ports: Seq<Port<Open, Open>>,
) -> Map<Seq<char>, Seq<SignalView>> {
    Map::new(
        |room: Seq<char>| positions.contains_key(room),
        |room: Seq<char>| queue_view(ports[positions[room] as int].inbound@),
    )
}

/// Each room stands at its own position.
spec fn positions_agree(
    positions: Map<Seq<char>, usize>,
    ports: Seq<Port<Open, Open>>,
) -> bool {
    &&& positions.dom().finite()
    &&& positions.dom().len() == ports.len()
    &&& forall|room: Seq<char>| #[trigger]
        positions.contains_key(room) ==> positions[room] < ports.len()
            && ports[positions[room] as int].room@ == room
    &&& forall|i: int|
        0 <= i < ports.len() ==> positions.contains_key((#[trigger] ports[i]).room@)
            && positions[ports[i].room@] == i
}

/// What the last signals say.
spec fn last_views(last: Seq<Option<Signal>>) -> Seq<Option<SignalView>> {
    last.map_values(
        |s: Option<Signal>|
            match s {
                Some(signal) => Some(signal@),
                None => None,
            },
    )
}

impl View for SignalChain {
    type V = ChainView;

    closed spec fn view(&self) -> ChainView {
        ChainView {
            rooms: rooms_of(self.positions@, self.ports@),
            routes: route_views(self.routes@),
            last: last_views(self.last_signal@),
            deadband: self.deadband,
            stats: self.stats,
        }
    }
}

/// Replacing what waits at one position replaces what waits in one room.
proof fn lemma_rooms_update(
    positions: Map<Seq<char>, usize>,
    ports: Seq<Port<Open, Open>>,
    i: int,
    port: Port<Open, Open>,
)
    requires
        positions_agree(positions, ports),
        0 <= i < ports.len(),
        port.room@ == ports[i].room@,
    ensures
        positions_agree(positions, ports.update(i, port)),
        rooms_of(positions, ports.update(i, port)) == rooms_of(positions, ports).insert(
            port.room@,
            queue_view(port.inbound@),
        ),
{
    let after = ports.update(i, port);
    assert forall|room: Seq<char>| #[trigger] positions.contains_key(room) implies positions[room]
        < after.len() && after[positions[room] as int].room@ == room by {
        assert(ports[positions[room] as int].room@ == room);
    }
    assert forall|j: int| 0 <= j < after.len() implies positions.contains_key(
        (#[trigger] after[j]).room@,
    ) && positions[after[j].room@] == j by {
        assert(positions.contains_key(ports[j].room@));
    }
    assert(rooms_of(positions, after) =~= rooms_of(positions, ports).insert(
        port.room@,
        queue_view(port.inbound@),
    )) by {
        assert(positions.contains_key(ports[i].room@));
        assert forall|room: Seq<char>| #[trigger]
            positions.contains_key(room) && room != port.room@ implies positions[room] != i by {
            assert(ports[positions[room] as int].room@ == room);
        }
    }
}

/// One signal more at the end of a queue.
proof fn lemma_queue_push(queue: Seq<Signal>, signal: Signal)
    ensures
        queue_view(queue.push(signal)) == queue_view(queue).push(signal@),
{
    assert(queue_view(queue.push(signal)) =~= queue_view(queue).push(signal@));
}

/// On each route that `signal` takes and whose deadband depends on it, `distances` holds a distance
/// that `distance` gives between the embedding of the last signal and that of `signal`.
pub open spec fn are_measured<D: Fn(&Vec<u64>, &Vec<u64>) -> u64>(
    chain: ChainView,
    signal: SignalView,
    distance: D,
    distances: Seq<u64>,
) -> bool {
    &&& distances.len() == chain.routes.len()
    &&& forall|i: int|
        0 <= i < chain.routes.len() && (#[trigger] chain.routes[i]).from == signal.source
            && depends_on_distance(chain.deadband, chain.last[i], signal) ==> is_measured(
            distance,
            chain.last[i].unwrap().embedding,
            signal.embedding,
            distances[i],
        )
}

/// What waits in each room after a broadcast has reached the rooms before position `k`.
spec fn reached(
    chain: ChainView,
    positions: Map<Seq<char>, usize>,
    signal: SignalView,
    k: int,
) -> Map<Seq<char>, Seq<SignalView>> {
    Map::new(
        |room: Seq<char>| chain.rooms.contains_key(room),
        |room: Seq<char>|
            if room != signal.source && positions[room] < k {
                chain.rooms[room].push(SignalView { target: room, ..signal })
            } else {
                chain.rooms[room]
            },
    )
}

impl SignalChain {
    /// The parts of the chain agree with each other, and its state is valid.
    pub closed spec fn well_formed(&self) -> bool {
        positions_agree(self.positions@, self.ports@) && self@.valid()
    }

    /// A well-formed chain is in a valid state.
    pub proof fn lemma_valid(&self)
        requires
            self.well_formed(),
        ensures
            self@.valid(),
    {
    }

    /// A chain without rooms, without routes, and without a deadband.
    pub fn new() -> (r: SignalChain)
        ensures
            r.well_formed(),
            r@ == empty_chain(),
    {
        let r = SignalChain {
            positions: StringHashMap::new(),
            ports: Vec::new(),
            routes: Vec::new(),
            last_signal: Vec::new(),
            deadband: DeadbandConfig::default(),
            stats: ChainStats::default(),
        };
        proof {
            assert(r@.rooms =~= empty_chain().rooms);
            assert(r@.routes =~= empty_chain().routes);
            assert(r@.last =~= empty_chain().last);
            assert(r@.rooms.dom() =~= Set::empty());
        }
        r
    }

    /// The same chain with another deadband.
    pub fn with_deadband(self, config: DeadbandConfig) -> (r: SignalChain)
        requires
            self.well_formed(),
        ensures
            r.well_formed(),
            r@ == (ChainView { deadband: config, ..self@ }),
    {
        let mut r = self;
        r.deadband = config;
        proof {
            lemma_valid_carries_over(self@, r@);
        }
        r
    }

    // -- Registration -------------------------------------------------------

    /// Register a new room. Returns false if already registered.
    pub fn register_room(&mut self, name: &str) -> (r: bool)
        requires
            old(self).well_formed(),
        ensures
            final(self).well_formed(),
            r == !old(self)@.is_registered(name@),
            final(self)@ == if r {
                with_room(old(self)@, name@)
            } else {
                old(self)@
            },
    {
        if self.positions.contains_key(name) {
            return false;
        }
        let ghost before = *self;
        let position: usize = self.ports.len();
        self.positions.insert(name.to_owned(), position);
        self.ports.push(Port::new(name));
        self.stats.rooms_registered = self.ports.len();
        proof {
            let positions = self.positions@;
            let ports = self.ports@;
            assert forall|room: Seq<char>| #[trigger]
                positions.contains_key(room) implies positions[room] < ports.len()
                && ports[positions[room] as int].room@ == room by {
                if room != name@ {
                    assert(before.positions@.contains_key(room));
                }
            }
            assert forall|i: int| 0 <= i < ports.len() implies positions.contains_key(
                (#[trigger] ports[i]).room@,
            ) && positions[ports[i].room@] == i by {
                if i < position {
                    assert(ports[i] == before.ports@[i]);
                }
            }
            assert(rooms_of(before.positions@, before.ports@).dom() =~= before.positions@.dom());
            assert(queue_view(ports[position as int].inbound@) =~= Seq::<SignalView>::empty());
            assert(rooms_of(positions, ports) =~= before@.rooms.insert(name@, Seq::empty())) by {
                assert forall|room: Seq<char>| #[trigger]
                    before.positions@.contains_key(room) implies ports[positions[room] as int]
                    == before.ports@[before.positions@[room] as int] by {}
            }
            assert(self@ =~= with_room(before@, name@));
            lemma_with_room_valid(before@, name@);
        }
        true
    }

    // -- Routing ------------------------------------------------------------

    /// Add a route between two rooms. Returns false if one of the rooms is not registered, or if
    /// there is such a route already.
    pub fn add_route(&mut self, from: &str, to: &str, algorithm: RoutingAlgorithm) -> (r: bool)
        requires
            old(self).well_formed(),
        ensures
            final(self).well_formed(),
            r == (old(self)@.is_registered(from@) && old(self)@.is_registered(to@)
                && !old(self)@.has_route(from@, to@)),
            final(self)@ == if r {
                with_route(old(self)@, from@, to@, algorithm)
            } else {
                old(self)@
            },
    {
        if !self.positions.contains_key(from) || !self.positions.contains_key(to) {
            return false;
        }
        let from_name: String = from.to_owned();
        let to_name: String = to.to_owned();
        let mut i: usize = 0;
        while i < self.routes.len()
            invariant
                *self == *old(self),
                self.well_formed(),
                from_name@ == from@,
                to_name@ == to@,
                i <= self.routes@.len(),
                forall|j: int|
                    0 <= j < i ==> (#[trigger] self@.routes[j]).from != from@
                        || self@.routes[j].to != to@,
            decreases self.routes@.len() - i,
        {
            assert(self@.routes[i as int] == self.routes@[i as int]@);
            if self.routes[i].from == from_name && self.routes[i].to == to_name {
                assert(self@.routes[i as int].from == from@);
                return false;
            }
            i = i + 1;
        }
        let ghost before = *self;
        self.routes.push(Route::new(from, to, algorithm));
        self.last_signal.push(None);
        self.stats.routes_active = self.routes.len();
        proof {
            assert(self@ =~= with_route(before@, from@, to@, algorithm));
            lemma_with_route_valid(before@, from@, to@, algorithm);
        }
        true
    }

    // -- Send / Receive -----------------------------------------------------

    /// Tells whether a route starts in `room`.
    fn leaves(&self, room: &String) -> (r: bool)
        ensures
            r == has_way_out(self@, room@),
    {
        let mut i: usize = 0;
        while i < self.routes.len()
            invariant
                i <= self.routes@.len(),
                forall|j: int| 0 <= j < i ==> (#[trigger] self@.routes[j]).from != room@,
            decreases self.routes@.len() - i,
        {
            assert(self@.routes[i as int] == self.routes@[i as int]@);
            if self.routes[i].from == *room {
                assert(self@.routes[i as int].from == room@);
                return true;
            }
            i = i + 1;
        }
        false
    }

    /// Puts `signal` at the end of what waits in the room `name`.
    fn deliver(&mut self, name: &String, signal: Signal)
        requires
            positions_agree(old(self).positions@, old(self).ports@),
            old(self)@.is_registered(name@),
        ensures
            positions_agree(final(self).positions@, final(self).ports@),
            final(self).positions == old(self).positions,
            final(self).ports@.len() == old(self).ports@.len(),
            forall|i: int|
                0 <= i < old(self).ports@.len() ==> (#[trigger] final(self).ports@[i]).room
                    == old(self).ports@[i].room,
            final(self).routes == old(self).routes,
            final(self).last_signal == old(self).last_signal,
            final(self).deadband == old(self).deadband,
            final(self).stats == old(self).stats,
            final(self)@ == (ChainView {
                rooms: old(self)@.rooms.insert(name@, old(self)@.rooms[name@].push(signal@)),
                ..old(self)@
            }),
    {
        let position: usize = match self.positions.get(name.as_str()) {
            Some(p) => *p,
            None => {
                return ;
            },
        };
        let ghost before = *self;
        self.ports[position].accept(signal);
        proof {
            let port = self.ports@[position as int];
            assert(self.ports@ =~= before.ports@.update(position as int, port));
            lemma_rooms_update(before.positions@, before.ports@, position as int, port);
            lemma_queue_push(before.ports@[position as int].inbound@, signal);
            assert(self@ =~= ChainView {
                rooms: before@.rooms.insert(name@, before@.rooms[name@].push(signal@)),
                ..before@
            });
        }
    }

    /// Tells whether a signal from `source` can be sent without a counter running over, whatever
    /// becomes of it on each route.
    pub fn can_send(&self, source: &str) -> (r: bool)
        requires
            self.well_formed(),
        ensures
            r == counters_fit(self@, source@),
    {
        if !self.positions.contains_key(source) {
            return true;
        }
        let name: String = source.to_owned();
        let mut n: usize = 0;
        let mut i: usize = 0;
        while i < self.routes.len()
            invariant
                name@ == source@,
                n <= i <= self.routes@.len(),
                n == ways_out(self@, source@, i as nat),
            decreases self.routes@.len() - i,
        {
            assert(self@.routes[i as int] == self.routes@[i as int]@);
            if self.routes[i].from == name {
                n = n + 1;
            }
            i = i + 1;
        }
        let limit: u64 = u64::MAX - n as u64;
        if n == 0 {
            self.stats.signals_dropped < u64::MAX
        } else {
            self.stats.signals_sent <= limit && self.stats.signals_dropped <= limit
                && self.stats.deadband_suppressions <= limit
        }
    }

    /// Sends a signal at time `now`, where `distances[i]` is the distance between its embedding and
    /// that of the last signal that the route at `i` delivered. Without an embedding deadband the
    /// distances do not matter.
    pub fn send_at(&mut self, signal: Signal, now: u64, distances: &Vec<u64>) -> (r: Result<
        (),
        &'static str,
    >)
        requires
            old(self).well_formed(),
            distances@.len() == old(self)@.routes.len(),
            counters_allow(old(self)@, signal@, now, distances@),
        ensures
            final(self).well_formed(),
            final(self)@ == sent(old(self)@, signal@, now, distances@),
            match r {
                Ok(_) => refusal(old(self)@, signal@.source) is None,
                Err(e) => refusal(old(self)@, signal@.source) == Some(e@),
            },
    {
        let ghost chain = self@;
        let ghost s = signal@;
        let ghost ds = distances@;
        if !self.positions.contains_key(signal.source.as_str()) {
            return Err("source room not registered");
        }
        if !self.leaves(&signal.source) {
            self.stats.signals_dropped = self.stats.signals_dropped + 1;
            proof {
                assert(self@ =~= sent(chain, s, now, ds));
                lemma_valid_carries_over(chain, self@);
            }
            return Err("no matching route");
        }
        let count: usize = self.routes.len();
        let mut i: usize = 0;
        proof {
            assert(chain.rooms.dom() =~= self.positions@.dom());
            lemma_sent_over_none(chain, s, now, ds);
        }
        while i < count
            invariant
                chain.valid(),
                counters_allow(chain, s, now, ds),
                s == signal@,
                ds == distances@,
                ds.len() == count,
                count == chain.routes.len(),
                i <= count,
                positions_agree(self.positions@, self.ports@),
                self.routes@.len() == count,
                self.last_signal@.len() == count,
                self@ == sent_over(chain, s, now, ds, i as nat),
            decreases count - i,
        {
            proof {
                lemma_sent_step(chain, s, now, ds, i as int);
                let k = (i + 1) as nat;
                lemma_tally_grows(chain, s, now, ds, k, count as nat, Outcome::Delivered);
                lemma_tally_grows(chain, s, now, ds, k, count as nat, Outcome::Dropped);
                lemma_tally_grows(chain, s, now, ds, k, count as nat, Outcome::Suppressed);
                assert(self@.routes[i as int] == self.routes@[i as int]@);
                assert(chain.is_registered(chain.routes[i as int].from));
            }
            let ghost before = *self;
            let ghost next = sent_over(chain, s, now, ds, (i + 1) as nat);
            if self.routes[i].from == signal.source {
                let previous: Option<&Signal> = match &self.last_signal[i] {
                    Some(last) => Some(last),
                    None => None,
                };
                if within_deadband(&self.deadband, previous, &signal, distances[i]) {
                    self.stats.deadband_suppressions = self.stats.deadband_suppressions + 1;
                    assert(self@ =~= next);
                } else if !self.routes[i].should_deliver(&signal, now) {
                    self.stats.signals_dropped = self.stats.signals_dropped + 1;
                    assert(self@ =~= next);
                } else {
                    let to: String = self.routes[i].to.clone();
                    self.routes[i].record(&signal, now);
                    assert(route_views(self.routes@) =~= route_views(before.routes@).update(
                        i as int,
                        passed(before.routes@[i as int]@, s, now),
                    ));
                    self.deliver(&to, signal.clone());
                    let ghost last_before = self.last_signal@;
                    self.last_signal.set(i, Some(signal.clone()));
                    assert(last_views(self.last_signal@) =~= last_views(last_before).update(
                        i as int,
                        Some(s),
                    ));
                    self.stats.signals_sent = self.stats.signals_sent + 1;
                    assert(self@ =~= next);
                }
            } else {
                assert(self@ =~= next);
            }
            i = i + 1;
        }
        proof {
            lemma_sent_over_valid(chain, s, now, ds, count as nat);
        }
        Ok(())
    }

    /// Measures, for each route that starts in the source of `signal`, the distance that its
    /// deadband depends on.
    fn measure_all<D: Fn(&Vec<u64>, &Vec<u64>) -> u64>(&self, signal: &Signal, distance: &D) -> (r:
        Vec<u64>)
        requires
            self.well_formed(),
            is_total(*distance),
        ensures
            are_measured(self@, signal@, *distance, r@),
    {
        let mut r: Vec<u64> = Vec::new();
        let mut i: usize = 0;
        while i < self.routes.len()
            invariant
                self.well_formed(),
                is_total(*distance),
                i <= self.routes@.len(),
                r@.len() == i,
                forall|j: int|
                    0 <= j < i && (#[trigger] self@.routes[j]).from == signal@.source
                        && depends_on_distance(self@.deadband, self@.last[j], signal@)
                        ==> is_measured(
                        *distance,
                        self@.last[j].unwrap().embedding,
                        signal@.embedding,
                        r@[j],
                    ),
            decreases self.routes@.len() - i,
        {
            assert(self@.routes[i as int] == self.routes@[i as int]@);
            let d: u64 = if self.routes[i].from == signal.source {
                let previous: Option<&Signal> = match &self.last_signal[i] {
                    Some(last) => Some(last),
                    None => None,
                };
                measure(&self.deadband, previous, signal, distance)
            } else {
                0
            };
            r.push(d);
            i = i + 1;
        }
        r
    }

    /// Send a signal through the chain, now. Routes to every room that a route from its source
    /// leads to, applying the deadband and the routing algorithm of each route. The distance
    /// between two embeddings is what `distance` says.
    pub fn send<D: Fn(&Vec<u64>, &Vec<u64>) -> u64>(&mut self, signal: Signal, distance: D) -> (r:
        Result<(), &'static str>)
        requires
            old(self).well_formed(),
            is_total(distance),
            forall|now: u64, distances: Seq<u64>|
                are_measured(old(self)@, signal@, distance, distances)
                    ==> #[trigger] counters_allow(old(self)@, signal@, now, distances),
        ensures
            final(self).well_formed(),
            exists|now: u64, distances: Seq<u64>|
                are_measured(old(self)@, signal@, distance, distances) && final(self)@
                    == #[trigger] sent(old(self)@, signal@, now, distances),
            match r {
                Ok(_) => refusal(old(self)@, signal@.source) is None,
                Err(e) => refusal(old(self)@, signal@.source) == Some(e@),
            },
    {
        let now: u64 = now_ms();
        let distances: Vec<u64> = self.measure_all(&signal, &distance);
        self.send_at(signal, now, &distances)
    }

    /// Receive (drain) all pending signals for a room, in the order in which they came.
    pub fn receive(&mut self, room: &str) -> (r: Vec<Signal>)
        requires
            old(self).well_formed(),
        ensures
            final(self).well_formed(),
            queue_view(r@) == waiting(old(self)@, room@),
            final(self)@ == drained(old(self)@, room@),
    {
        let ghost chain = self@;
        let mut r: Vec<Signal> = Vec::new();
        let position: usize = match self.positions.get(room) {
            Some(p) => *p,
            None => {
                assert(queue_view(r@) =~= Seq::<SignalView>::empty());
                return r;
            },
        };
        let ghost before = *self;
        let ghost queue = self.ports@[position as int].inbound@;
        assert(queue.take(0) =~= Seq::<Signal>::empty());
        assert(queue.skip(0) =~= queue);
        while self.ports[position].inbound.len() > 0
            invariant
                position < self.ports@.len(),
                self.ports@.len() == before.ports@.len(),
                self.positions == before.positions,
                self.routes == before.routes,
                self.last_signal == before.last_signal,
                self.deadband == before.deadband,
                self.stats == before.stats,
                forall|i: int|
                    0 <= i < self.ports@.len() && i != position ==> #[trigger] self.ports@[i]
                        == before.ports@[i],
                self.ports@[position as int].room == before.ports@[position as int].room,
                r@.len() <= queue.len(),
                r@ == queue.take(r@.len() as int),
                self.ports@[position as int].inbound@ == queue.skip(r@.len() as int),
            decreases self.ports@[position as int].inbound@.len(),
        {
            match self.ports[position].inbound.pop_front() {
                Some(signal) => {
                    r.push(signal);
                    assert(r@ =~= queue.take(r@.len() as int));
                    assert(self.ports@[position as int].inbound@ =~= queue.skip(r@.len() as int));
                },
                None => {},
            }
        }
        let received: u64 = r.len() as u64;
        proof {
            let port = self.ports@[position as int];
            assert(r@ =~= queue);
            assert(self.ports@ =~= before.ports@.update(position as int, port));
            lemma_rooms_update(before.positions@, before.ports@, position as int, port);
            assert(queue_view(port.inbound@) =~= Seq::<SignalView>::empty());
            lemma_pending_insert(chain.rooms, room@, Seq::empty());
            assert(chain.rooms[room@] == queue_view(queue));
        }
        self.stats.signals_received = self.stats.signals_received + received;
        proof {
            lemma_drained_valid(chain, room@);
            assert(self@ =~= drained(chain, room@));
        }
        r
    }

    // -- Broadcast ----------------------------------------------------------

    /// Tells whether a signal from `source` can be broadcast without a counter running over.
    pub fn can_broadcast(&self, source: &str) -> (r: bool)
        requires
            self.well_formed(),
        ensures
            r == (self@.stats.signals_sent + audience(self@, source@) <= u64::MAX),
    {
        assert(self@.rooms.dom() =~= self.positions@.dom());
        let rooms: u64 = self.ports.len() as u64;
        let reached: u64 = if self.positions.contains_key(source) {
            assert(self@.rooms.dom().contains(source@));
            assert(self@.rooms.dom().len() > 0);
            rooms - 1
        } else {
            rooms
        };
        self.stats.signals_sent <= u64::MAX - reached
    }

    /// Broadcast a signal from a source to ALL other registered rooms. Returns how many they are.
    pub fn broadcast(&mut self, signal: Signal) -> (r: usize)
        requires
            old(self).well_formed(),
            old(self)@.stats.signals_sent + audience(old(self)@, signal@.source) <= u64::MAX,
        ensures
            final(self).well_formed(),
            r == audience(old(self)@, signal@.source),
            final(self)@ == broadcasted(old(self)@, signal@),
    {
        let ghost chain = self@;
        let ghost positions = self.positions@;
        let ghost before = *self;
        let ghost s = signal@;
        let rooms: usize = self.ports.len();
        let mut count: usize = 0;
        let mut i: usize = 0;
        proof {
            assert(chain.rooms.dom() =~= positions.dom());
            assert(reached(chain, positions, s, 0) =~= chain.rooms);
        }
        while i < rooms
            invariant
                i <= rooms == self.ports@.len(),
                s == signal@,
                chain.valid(),
                chain.rooms.dom() == positions.dom(),
                positions == self.positions@,
                positions_agree(positions, self.ports@),
                self.routes == before.routes,
                self.last_signal == before.last_signal,
                self.deadband == before.deadband,
                self.stats == before.stats,
                count == i - if positions.contains_key(s.source) && positions[s.source] < i {
                    1int
                } else {
                    0
                },
                rooms_of(positions, self.ports@) == reached(chain, positions, s, i as int),
                pending(rooms_of(positions, self.ports@)) == pending(chain.rooms) + count,
            decreases rooms - i,
        {
            let ghost ports = self.ports@;
            let ghost name = self.ports@[i as int].room@;
            proof {
                assert(positions.contains_key(ports[i as int].room@));
                assert forall|room: Seq<char>| #[trigger]
                    positions.contains_key(room) && positions[room] == i implies room == name by {
                    assert(ports[positions[room] as int].room@ == room);
                }
                assert(rooms_of(positions, ports).dom() =~= positions.dom());
            }
            if self.ports[i].room == signal.source {
                assert(reached(chain, positions, s, i + 1) =~= reached(
                    chain,
                    positions,
                    s,
                    i as int,
                ));
            } else {
                let mut copy = signal.clone();
                copy.target = self.ports[i].room.clone();
                assert(copy@ =~= SignalView { target: name, ..s });
                self.ports[i].accept(copy);
                count = count + 1;
                proof {
                    let port = self.ports@[i as int];
                    assert(self.ports@ =~= ports.update(i as int, port));
                    lemma_rooms_update(positions, ports, i as int, port);
                    lemma_queue_push(ports[i as int].inbound@, copy);
                    lemma_pending_insert(
                        rooms_of(positions, ports),
                        name,
                        queue_view(port.inbound@),
                    );
                    assert(reached(chain, positions, s, i + 1) =~= reached(
                        chain,
                        positions,
                        s,
                        i as int,
                    ).insert(name, queue_view(port.inbound@)));
                }
            }
            i = i + 1;
        }
        self.stats.signals_sent = self.stats.signals_sent + count as u64;
        proof {
            assert(reached(chain, positions, s, rooms as int) =~= broadcasted(chain, s).rooms);
            assert(self@ =~= broadcasted(chain, s));
            assert(self@.rooms.dom() =~= chain.rooms.dom());
            lemma_valid_carries_over(chain, self@);
        }
        count
    }

    // -- Path finding -------------------------------------------------------

    /// Find a path (sequence of room names) from `from` to `to` using BFS: the shortest there is,
    /// and of those as short the one that takes, where they part, the route that was added first.
    pub fn find_path(&self, from: &str, to: &str) -> (r: Option<Vec<String>>)
        ensures
            match r {
                Some(names) => exists|walk: Seq<int>|
                    #[trigger] is_first_choice(self@.routes, from@, to@, walk)
                        && names@.map_values(|s: String| s@) == rooms_along(
                        self@.routes,
                        from@,
                        walk,
                    ),
                None => forall|walk: Seq<int>| !#[trigger] leads(self@.routes, from@, to@, walk),
            },
    {
        let start: String = from.to_owned();
        let goal: String = to.to_owned();
        match find_walk(&self.routes, &start, &goal) {
            Some(walk) => {
                let names = names_along(&self.routes, &start, &walk);
                assert(is_first_choice(self@.routes, from@, to@, hops(walk@)));
                Some(names)
            },
            None => None,
        }
    }

    // -- Storm detection ----------------------------------------------------

    /// Detect a signal storm: returns a room in which at least `threshold` signals with the same
    /// payload wait, and how many they are, if there is such a room. A room in which nothing waits
    /// is none. Where there are several, any of them may be the one returned.
    pub fn detect_storm(&self, threshold: usize) -> (r: Option<(&str, usize)>)
        requires
            self.well_formed(),
        ensures
            match r {
                Some((room, count)) => {
                    &&& self@.is_registered(room@)
                    &&& self@.rooms[room@].len() > 0
                    &&& count == peak(self@.rooms[room@])
                    &&& count >= threshold
                },
                None => forall|room: Seq<char>| #[trigger]
                    self@.is_registered(room) ==> self@.rooms[room].len() == 0 || peak(
                        self@.rooms[room],
                    ) < threshold,
            },
    {
        let mut i: usize = 0;
        while i < self.ports.len()
            invariant
                self.well_formed(),
                i <= self.ports@.len(),
                forall|j: int|
                    0 <= j < i ==> (#[trigger] self.ports@[j]).inbound@.len() == 0 || peak(
                        queue_view(self.ports@[j].inbound@),
                    ) < threshold,
            decreases self.ports@.len() - i,
        {
            if self.ports[i].inbound.len() > 0 {
                let count: usize = peak_of(&self.ports[i].inbound);
                if count >= threshold {
                    assert(self.positions@.contains_key(self.ports@[i as int].room@));
                    return Some((self.ports[i].room.as_str(), count));
                }
            }
            i = i + 1;
        }
        assert forall|room: Seq<char>| #[trigger] self@.is_registered(room) implies self@.rooms[
            room
        ].len() == 0 || peak(self@.rooms[room]) < threshold by {
            let j = self.positions@[room] as int;
            assert(self.ports@[j].room@ == room);
        }
        None
    }

    // -- Stats --------------------------------------------------------------

    /// The counters of the chain.
    pub fn stats(&self) -> (r: &ChainStats)
        ensures
            *r == self@.stats,
    {
        &self.stats
    }
}

impl Default for SignalChain {
    fn default() -> (r: Self)
        ensures
            r.well_formed(),
            r@ == empty_chain(),
    {
        SignalChain::new()
    }
}

} // verus!
