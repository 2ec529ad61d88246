//! What each operation of a signal chain does, in terms of what goes in and what comes out.
use crate::chain::are_measured;
use crate::clock::timestamp;
use crate::deadband::depends_on_distance;
use crate::deadband::is_measured;
use crate::deadband::is_total;
use crate::deadband::said;
use crate::deadband::suppresses;
use crate::deadband::DeadbandConfig;
use crate::laws::law_send_receive;
use crate::laws::law_sending_keeps_the_network;
use crate::model::audience;
use crate::model::broadcasted;
use crate::model::counters_allow;
use crate::model::counters_fit;
use crate::model::drained;
use crate::model::empty_chain;
use crate::model::lemma_pending_insert;
use crate::model::lemma_sent_over_valid;
use crate::model::lemma_tally_total;
use crate::model::lemma_with_route_valid;
use crate::model::outcome;
use crate::model::pending;
use crate::model::refusal;
use crate::model::sent;
use crate::model::tally;
use crate::model::waiting;
use crate::model::ways_out;
use crate::model::with_room;
use crate::model::with_route;
use crate::model::ChainView;
use crate::model::Outcome;
use crate::path::is_first_choice;
use crate::path::leads;
use crate::path::rooms_along;
use crate::path::stop;
use crate::path::turns_off_earlier;
use crate::port::all_pass;
use crate::port::first_refusal;
use crate::port::queue_view;
use crate::port::transforms_to;
use crate::port::Port;
use crate::route::fresh_route;
use crate::route::passed;
use crate::route::passes;
use crate::route::route_views;
use crate::route::Route;
use crate::route::RouteView;
use crate::route::RoutingAlgorithm;
use crate::signal::blank;
use crate::signal::Signal;
use crate::signal::SignalType;
use crate::signal::SignalView;
use crate::storm::law_peak;
use crate::storm::occurrences;
use crate::storm::peak;
use vstd::prelude::*;

verus! {

// Views

/// What a signal says is all that it holds.
pub proof fn law_signal_view(signal: Signal)
    ensures
        signal@.source == signal.source@,
        signal@.target == signal.target@,
        signal@.signal_type == signal.signal_type,
        signal@.payload == signal.payload@,
        signal@.embedding == signal.embedding@,
        signal@.priority == signal.priority,
        signal@.timestamp == signal.timestamp,
        signal@.id == signal.id,
{
}

/// What a route holds is all that is seen of it.
pub proof fn law_route_view(route: Route)
    ensures
        route@.from == route.from@,
        route@.to == route.to@,
        route@.algorithm == route.algorithm,
        route@.last_sent == route.last_sent,
        route.last_payload is None <==> route@.last_payload is None,
        route.last_payload matches Some(p) ==> route@.last_payload == Some(p@),
{
}

/// The queues and lists that are seen hold, place by place, what the held ones do.
pub proof fn law_list_views(queue: Seq<Signal>, routes: Seq<Route>)
    ensures
        queue_view(queue).len() == queue.len(),
        forall|i: int| 0 <= i < queue.len() ==> #[trigger] queue_view(queue)[i] == queue[i]@,
        route_views(routes).len() == routes.len(),
        forall|i: int| 0 <= i < routes.len() ==> #[trigger] route_views(routes)[i] == routes[i]@,
{
}

/// A signal starts out with the rooms, type, time and number that it is given, priority five, and
/// nothing to carry.
pub proof fn law_blank_signal(
    source: Seq<char>,
    target: Seq<char>,
    signal_type: SignalType,
    timestamp: u64,
    id: u64,
)
    ensures
        ({
            let s = blank(source, target, signal_type, timestamp, id);
            &&& s.source == source
            &&& s.target == target
            &&& s.signal_type == signal_type
            &&& s.timestamp == timestamp
            &&& s.id == id
            &&& s.priority == 5
            &&& s.payload.len() == 0
            &&& s.embedding.len() == 0
        }),
{
}

/// A reading of the clock that fits becomes the timestamp as it is; larger ones wrap around, and
/// before the epoch it is zero.
pub proof fn law_timestamp(ms: u128)
    ensures
        ms <= u64::MAX ==> timestamp(Some(ms)) == ms,
        ms > u64::MAX ==> timestamp(Some(ms)) == timestamp(
            Some((ms - 0x1_0000_0000_0000_0000) as u128),
        ),
        timestamp(None) == 0,
{
    if ms > u64::MAX {
        vstd::arithmetic::div_mod::lemma_mod_add_multiples_vanish(
            ms - 0x1_0000_0000_0000_0000,
            0x1_0000_0000_0000_0000,
        );
    }
}

// Rooms and routes

/// A new chain has no rooms, no routes, no deadband, and counts from zero.
pub proof fn law_new_chain()
    ensures
        forall|room: Seq<char>| !#[trigger] empty_chain().rooms.contains_key(room),
        empty_chain().routes.len() == 0,
        empty_chain().last.len() == 0,
        empty_chain().deadband.tolerance == 0,
        !empty_chain().deadband.use_embedding,
        empty_chain().stats.signals_sent == 0,
        empty_chain().stats.signals_received == 0,
        empty_chain().stats.signals_dropped == 0,
        empty_chain().stats.deadband_suppressions == 0,
        empty_chain().stats.rooms_registered == 0,
        empty_chain().stats.routes_active == 0,
{
}

/// A room is registered exactly if it is among the rooms, and what waits in it is what is held for
/// it; there is a route between two rooms exactly if one of the routes joins them.
pub proof fn law_presence(chain: ChainView, a: Seq<char>, b: Seq<char>)
    ensures
        chain.is_registered(a) <==> chain.rooms.dom().contains(a),
        chain.rooms.dom().contains(a) ==> waiting(chain, a) == chain.rooms[a],
        !chain.rooms.dom().contains(a) ==> waiting(chain, a).len() == 0,
        chain.has_route(a, b) <==> exists|i: int|
            0 <= i < chain.routes.len() && (#[trigger] chain.routes[i]).from == a
                && chain.routes[i].to == b,
{
    if chain.has_route(a, b) {
        let i = choose|i: int|
            0 <= i < chain.routes.len() && #[trigger] chain.routes[i].from == a
                && chain.routes[i].to == b;
        assert(0 <= i < chain.routes.len() && chain.routes[i].from == a);
    }
}

/// Registering a room adds this room and nothing else.
pub proof fn law_added_room(chain: ChainView, name: Seq<char>)
    requires
        chain.stats.rooms_registered < usize::MAX,
    ensures
        ({
            let after = with_room(chain, name);
            &&& after.rooms.dom() == chain.rooms.dom().insert(name)
            &&& after.rooms[name].len() == 0
            &&& forall|room: Seq<char>|
                room != name && chain.rooms.dom().contains(room) ==> #[trigger] after.rooms[room]
                    == chain.rooms[room]
            &&& after.routes == chain.routes
            &&& after.last == chain.last
            &&& after.deadband == chain.deadband
            &&& after.stats.rooms_registered == chain.stats.rooms_registered + 1
            &&& after.stats.routes_active == chain.stats.routes_active
            &&& after.stats.signals_sent == chain.stats.signals_sent
            &&& after.stats.signals_received == chain.stats.signals_received
            &&& after.stats.signals_dropped == chain.stats.signals_dropped
            &&& after.stats.deadband_suppressions == chain.stats.deadband_suppressions
        }),
{
    assert(with_room(chain, name).rooms.dom() =~= chain.rooms.dom().insert(name));
}

/// Adding a route puts it behind the others, with the rooms and the algorithm it was given and
/// nothing remembered, and changes nothing else.
pub proof fn law_added_route(
    chain: ChainView,
    from: Seq<char>,
    to: Seq<char>,
    algorithm: RoutingAlgorithm,
)
    requires
        chain.stats.routes_active < usize::MAX,
        chain.last.len() == chain.routes.len(),
    ensures
        ({
            let after = with_route(chain, from, to, algorithm);
            let n = chain.routes.len() as int;
            &&& after.routes.len() == n + 1
            &&& after.routes[n].from == from
            &&& after.routes[n].to == to
            &&& after.routes[n].algorithm == algorithm
            &&& after.routes[n].last_payload is None
            &&& after.routes[n].last_sent == 0
            &&& after.last.len() == n + 1
            &&& after.last[n] is None
            &&& after.routes.take(n) == chain.routes
            &&& after.last.take(n) == chain.last
            &&& after.rooms == chain.rooms
            &&& after.deadband == chain.deadband
            &&& after.stats.routes_active == chain.stats.routes_active + 1
            &&& after.stats.rooms_registered == chain.stats.rooms_registered
            &&& after.stats.signals_sent == chain.stats.signals_sent
            &&& after.stats.signals_received == chain.stats.signals_received
            &&& after.stats.signals_dropped == chain.stats.signals_dropped
            &&& after.stats.deadband_suppressions == chain.stats.deadband_suppressions
        }),
{
    let after = with_route(chain, from, to, algorithm);
    let n = chain.routes.len() as int;
    assert(after.routes.take(n) =~= chain.routes);
    assert(after.last.take(n) =~= chain.last);
}

/// Over a direct, a buffered or an adaptive route that has just been added, without a deadband,
/// every signal is delivered, and so is every further one, whatever it carries and however soon it
/// is sent.
pub proof fn law_added_route_delivers(
    chain: ChainView,
    from: Seq<char>,
    to: Seq<char>,
    algorithm: RoutingAlgorithm,
    first: SignalView,
    now1: u64,
    distances1: Seq<u64>,
    second: SignalView,
    now2: u64,
    distances2: Seq<u64>,
)
    requires
        chain.valid(),
        chain.is_registered(from),
        chain.is_registered(to),
        !chain.has_route(from, to),
        chain.stats.routes_active < usize::MAX,
        algorithm == RoutingAlgorithm::Direct || algorithm == RoutingAlgorithm::Buffered
            || algorithm == RoutingAlgorithm::Adaptive,
        chain.deadband.tolerance == 0,
        first.source == from,
        second.source == from,
        counters_allow(with_route(chain, from, to, algorithm), first, now1, distances1),
    ensures
        ({
            let added = with_route(chain, from, to, algorithm);
            let once = sent(added, first, now1, distances1);
            let twice = sent(once, second, now2, distances2);
            &&& waiting(once, to) == waiting(chain, to).push(first)
            &&& waiting(twice, to) == waiting(chain, to).push(first).push(second)
        }),
{
    let added = with_route(chain, from, to, algorithm);
    let once = sent(added, first, now1, distances1);
    let n = chain.routes.len() as int;
    lemma_with_route_valid(chain, from, to, algorithm);
    law_added_route(chain, from, to, algorithm);
    law_send_receive(added, first, now1, distances1, n);
    lemma_sent_over_valid(added, first, now1, distances1, added.routes.len());
    law_sending_keeps_the_network(added, first, now1, distances1);
    assert(once.routes[n].from == from);
    law_send_receive(once, second, now2, distances2, n);
}

// Sending

/// What becomes of a signal on a route. A route that starts elsewhere has no part in it. Otherwise
/// the deadband comes first: a signal that it suppresses is suppressed, whatever the algorithm. Of
/// the others, a direct, a buffered and an adaptive route deliver all, a correlated one those whose
/// priority reaches the threshold, an on-change one those that do not repeat the payload delivered
/// last, and a sampled one those that come an interval after the last delivery; the rest is dropped.
pub proof fn law_outcome(
    chain: ChainView,
    signal: SignalView,
    now: u64,
    distances: Seq<u64>,
    i: int,
)
    ensures
        chain.routes[i].from != signal.source <==> outcome(chain, signal, now, distances, i)
            == Outcome::Elsewhere,
        chain.routes[i].from == signal.source ==> {
            let what = outcome(chain, signal, now, distances, i);
            let held = suppresses(chain.deadband, chain.last[i], signal, distances[i]);
            let last = chain.routes[i].last_sent;
            &&& what == Outcome::Suppressed <==> held
            &&& !held ==> match chain.routes[i].algorithm {
                RoutingAlgorithm::Direct => what == Outcome::Delivered,
                RoutingAlgorithm::Buffered => what == Outcome::Delivered,
                RoutingAlgorithm::Adaptive => what == Outcome::Delivered,
                RoutingAlgorithm::Correlated { threshold } => {
                    &&& what == Outcome::Delivered <==> threshold <= signal.priority
                    &&& what == Outcome::Dropped <==> signal.priority < threshold
                },
                RoutingAlgorithm::OnChange => {
                    &&& what == Outcome::Dropped <==> chain.routes[i].last_payload == Some(
                        signal.payload,
                    )
                    &&& what == Outcome::Delivered <==> chain.routes[i].last_payload != Some(
                        signal.payload,
                    )
                },
                RoutingAlgorithm::Sampled { interval_ms } => {
                    &&& what == Outcome::Delivered <==> interval_ms == 0 || last + interval_ms
                        <= now
                    &&& what == Outcome::Dropped <==> interval_ms > 0 && now < last + interval_ms
                },
            }
        },
{
}

/// Which signals a route lets pass, and when, by its algorithm.
pub proof fn law_passing(route: RouteView, signal: SignalView, now: u64)
    ensures
        match route.algorithm {
            RoutingAlgorithm::Direct => passes(route, signal, now),
            RoutingAlgorithm::Buffered => passes(route, signal, now),
            RoutingAlgorithm::Adaptive => passes(route, signal, now),
            RoutingAlgorithm::Correlated { threshold } => {
                &&& signal.priority >= threshold ==> passes(route, signal, now)
                &&& signal.priority < threshold ==> !passes(route, signal, now)
            },
            RoutingAlgorithm::OnChange => {
                &&& route.last_payload is None ==> passes(route, signal, now)
                &&& route.last_payload matches Some(last) ==> (passes(route, signal, now) <==> last
                    != signal.payload)
            },
            RoutingAlgorithm::Sampled { interval_ms } => {
                &&& interval_ms == 0 || route.last_sent + interval_ms <= now ==> passes(
                    route,
                    signal,
                    now,
                )
                &&& interval_ms > 0 && now < route.last_sent + interval_ms ==> !passes(
                    route,
                    signal,
                    now,
                )
            },
        },
{
}

/// A route that a signal has passed remembers its payload and the time, and is the same otherwise.
pub proof fn law_passed(route: RouteView, signal: SignalView, now: u64)
    ensures
        passed(route, signal, now).last_payload == Some(signal.payload),
        passed(route, signal, now).last_sent == now,
        passed(route, signal, now).from == route.from,
        passed(route, signal, now).to == route.to,
        passed(route, signal, now).algorithm == route.algorithm,
{
}

/// A new route has the rooms and the algorithm that it is given, and remembers nothing.
pub proof fn law_new_route(from: Seq<char>, to: Seq<char>, algorithm: RoutingAlgorithm)
    ensures
        fresh_route(from, to, algorithm).from == from,
        fresh_route(from, to, algorithm).to == to,
        fresh_route(from, to, algorithm).algorithm == algorithm,
        fresh_route(from, to, algorithm).last_payload is None,
        fresh_route(from, to, algorithm).last_sent == 0,
{
}

/// Sending is refused exactly if the source is not a room, or no route starts in it, and in these
/// words.
pub proof fn law_refusal(chain: ChainView, source: Seq<char>)
    ensures
        !chain.rooms.dom().contains(source) <==> refusal(chain, source) == Some(
            "source room not registered"@,
        ),
        chain.rooms.dom().contains(source) && (forall|i: int|
            0 <= i < chain.routes.len() ==> (#[trigger] chain.routes[i]).from != source)
            <==> refusal(chain, source) == Some("no matching route"@),
        chain.rooms.dom().contains(source) && (exists|i: int|
            0 <= i < chain.routes.len() && (#[trigger] chain.routes[i]).from == source)
            <==> refusal(chain, source) is None,
{
    reveal_strlit("source room not registered");
    reveal_strlit("no matching route");
    assert("source room not registered"@.len() != "no matching route"@.len());
}

/// The tally of an outcome is the number of routes that have it.
proof fn lemma_tally_is_a_count(
    chain: ChainView,
    signal: SignalView,
    now: u64,
    distances: Seq<u64>,
    k: nat,
    what: Outcome,
)
    ensures
        ({
            let places = Set::new(
                |i: int| 0 <= i < k && outcome(chain, signal, now, distances, i) == what,
            );
            places.finite() && tally(chain, signal, now, distances, k, what) == places.len()
        }),
    decreases k,
{
    let places = Set::new(
        |i: int| 0 <= i < k && outcome(chain, signal, now, distances, i) == what,
    );
    if k == 0 {
        assert(places =~= Set::empty());
    } else {
        let m = (k - 1) as nat;
        lemma_tally_is_a_count(chain, signal, now, distances, m, what);
        let before = Set::new(
            |i: int| 0 <= i < m && outcome(chain, signal, now, distances, i) == what,
        );
        if outcome(chain, signal, now, distances, m as int) == what {
            assert(places =~= before.insert(m as int));
        } else {
            assert(places =~= before);
        }
    }
}

/// A signal that is not refused is counted route by route: as sent on each route that delivers it,
/// as dropped on each that drops it, as suppressed on each whose deadband holds it. No other counter
/// moves.
pub proof fn law_sending_is_counted(
    chain: ChainView,
    signal: SignalView,
    now: u64,
    distances: Seq<u64>,
)
    requires
        refusal(chain, signal.source) is None,
        counters_allow(chain, signal, now, distances),
    ensures
        ({
            let after = sent(chain, signal, now, distances).stats;
            let n = chain.routes.len();
            &&& after.signals_sent == chain.stats.signals_sent + Set::new(
                |i: int|
                    0 <= i < n && outcome(chain, signal, now, distances, i) == Outcome::Delivered,
            ).len()
            &&& after.signals_dropped == chain.stats.signals_dropped + Set::new(
                |i: int|
                    0 <= i < n && outcome(chain, signal, now, distances, i) == Outcome::Dropped,
            ).len()
            &&& after.deadband_suppressions == chain.stats.deadband_suppressions + Set::new(
                |i: int|
                    0 <= i < n && outcome(chain, signal, now, distances, i) == Outcome::Suppressed,
            ).len()
            &&& after.signals_received == chain.stats.signals_received
            &&& after.rooms_registered == chain.stats.rooms_registered
            &&& after.routes_active == chain.stats.routes_active
        }),
{
    let n = chain.routes.len();
    lemma_tally_is_a_count(chain, signal, now, distances, n, Outcome::Delivered);
    lemma_tally_is_a_count(chain, signal, now, distances, n, Outcome::Dropped);
    lemma_tally_is_a_count(chain, signal, now, distances, n, Outcome::Suppressed);
}

/// A signal that is refused for want of a route is counted as dropped once; one from an unknown room
/// is not counted.
pub proof fn law_refusal_is_counted(
    chain: ChainView,
    signal: SignalView,
    now: u64,
    distances: Seq<u64>,
)
    requires
        refusal(chain, signal.source) is Some,
        chain.stats.signals_dropped < u64::MAX,
    ensures
        ({
            let after = sent(chain, signal, now, distances);
            let known = chain.rooms.dom().contains(signal.source);
            &&& known ==> after.stats.signals_dropped == chain.stats.signals_dropped + 1
            &&& !known ==> after.stats.signals_dropped == chain.stats.signals_dropped
            &&& after.stats.signals_sent == chain.stats.signals_sent
            &&& after.stats.signals_received == chain.stats.signals_received
            &&& after.stats.deadband_suppressions == chain.stats.deadband_suppressions
            &&& after.stats.rooms_registered == chain.stats.rooms_registered
            &&& after.stats.routes_active == chain.stats.routes_active
            &&& after.rooms == chain.rooms
            &&& after.routes == chain.routes
            &&& after.last == chain.last
            &&& after.deadband == chain.deadband
        }),
{
}

/// A room finds a signal behind what waited in it exactly if some route from the source of the signal
/// leads there and delivers it; every other room is left as it is.
pub proof fn law_sending_fills_rooms(
    chain: ChainView,
    signal: SignalView,
    now: u64,
    distances: Seq<u64>,
    room: Seq<char>,
)
    requires
        chain.rooms.dom().contains(room),
        chain.rooms.dom().contains(signal.source),
    ensures
        ({
            let after = sent(chain, signal, now, distances);
            let reached = exists|i: int|
                0 <= i < chain.routes.len() && (#[trigger] chain.routes[i]).to == room && outcome(
                    chain,
                    signal,
                    now,
                    distances,
                    i,
                ) == Outcome::Delivered;
            &&& after.rooms.dom() == chain.rooms.dom()
            &&& reached ==> after.rooms[room] == chain.rooms[room].push(signal)
            &&& !reached ==> after.rooms[room] == chain.rooms[room]
        }),
{
    let after = sent(chain, signal, now, distances);
    assert(after.rooms.dom() =~= chain.rooms.dom());
    if exists|i: int|
        0 <= i < chain.routes.len() && (#[trigger] chain.routes[i]).to == room && outcome(
            chain,
            signal,
            now,
            distances,
            i,
        ) == Outcome::Delivered {
        let i = choose|i: int|
            0 <= i < chain.routes.len() && (#[trigger] chain.routes[i]).to == room && outcome(
                chain,
                signal,
                now,
                distances,
                i,
            ) == Outcome::Delivered;
        assert(chain.routes[i].from == signal.source);
        assert(chain.routes[i].to == room);
        assert(outcome(chain, signal, now, distances, i) is Delivered);
    }
}

/// The ways out of a room are the routes that start in it.
pub proof fn law_ways_out(chain: ChainView, room: Seq<char>, k: nat)
    ensures
        ({
            let places = Set::new(|i: int| 0 <= i < k && chain.routes[i].from == room);
            places.finite() && ways_out(chain, room, k) == places.len() && places.len() <= k
        }),
    decreases k,
{
    let places = Set::new(|i: int| 0 <= i < k && chain.routes[i].from == room);
    if k == 0 {
        assert(places =~= Set::empty());
    } else {
        let m = (k - 1) as nat;
        law_ways_out(chain, room, m);
        let before = Set::new(|i: int| 0 <= i < m && chain.routes[i].from == room);
        if chain.routes[m as int].from == room {
            assert(places =~= before.insert(m as int));
        } else {
            assert(places =~= before);
        }
    }
}

/// A chain whose counters are further from their limit than there are routes can send any signal.
pub proof fn law_counters_far_from_limit(
    chain: ChainView,
    signal: SignalView,
    now: u64,
    distances: Seq<u64>,
)
    requires
        chain.stats.signals_sent + chain.routes.len() < u64::MAX,
        chain.stats.signals_dropped + chain.routes.len() < u64::MAX,
        chain.stats.deadband_suppressions + chain.routes.len() < u64::MAX,
    ensures
        counters_allow(chain, signal, now, distances),
        counters_fit(chain, signal.source),
{
    lemma_tally_total(chain, signal, now, distances, chain.routes.len());
    law_ways_out(chain, signal.source, chain.routes.len());
}

/// No counter can overflow, whatever becomes of a signal, exactly if the source is no room, or each
/// counter has room for all routes that start in it, or for one drop where there is none.
pub proof fn law_counters_fit(chain: ChainView, source: Seq<char>)
    ensures
        ({
            let n = Set::new(
                |i: int| 0 <= i < chain.routes.len() && chain.routes[i].from == source,
            ).len();
            counters_fit(chain, source) <==> {
                ||| !chain.rooms.dom().contains(source)
                ||| n == 0 && chain.stats.signals_dropped < u64::MAX
                ||| n > 0 && chain.stats.signals_sent + n <= u64::MAX
                    && chain.stats.signals_dropped + n <= u64::MAX
                    && chain.stats.deadband_suppressions + n <= u64::MAX
            }
        }),
{
    law_ways_out(chain, source, chain.routes.len());
}

/// A signal cannot be sent where a counter would pass its limit.
pub proof fn law_counters_stay_within_limit(
    chain: ChainView,
    signal: SignalView,
    now: u64,
    distances: Seq<u64>,
)
    requires
        refusal(chain, signal.source) is None,
    ensures
        ({
            let n = chain.routes.len();
            counters_allow(chain, signal, now, distances) <==> {
                &&& chain.stats.signals_sent + Set::new(
                    |i: int|
                        0 <= i < n && outcome(chain, signal, now, distances, i)
                            == Outcome::Delivered,
                ).len() <= u64::MAX
                &&& chain.stats.signals_dropped + Set::new(
                    |i: int|
                        0 <= i < n && outcome(chain, signal, now, distances, i)
                            == Outcome::Dropped,
                ).len() <= u64::MAX
                &&& chain.stats.deadband_suppressions + Set::new(
                    |i: int|
                        0 <= i < n && outcome(chain, signal, now, distances, i)
                            == Outcome::Suppressed,
                ).len() <= u64::MAX
            }
        }),
{
    let n = chain.routes.len();
    lemma_tally_is_a_count(chain, signal, now, distances, n, Outcome::Delivered);
    lemma_tally_is_a_count(chain, signal, now, distances, n, Outcome::Dropped);
    lemma_tally_is_a_count(chain, signal, now, distances, n, Outcome::Suppressed);
}

/// The distance that decides on a route is one that `distance` gives for the embedding of the signal
/// delivered last, first, and that of the signal sent, second, wherever both have one and the
/// deadband compares embeddings.
pub proof fn law_distance_is_asked<D: Fn(&Vec<u64>, &Vec<u64>) -> u64>(
    chain: ChainView,
    signal: SignalView,
    distance: D,
    distances: Seq<u64>,
    i: int,
)
    requires
        are_measured(chain, signal, distance, distances),
        0 <= i < chain.routes.len(),
        chain.routes[i].from == signal.source,
        chain.deadband.use_embedding,
        0 < chain.deadband.tolerance <= 0x7FF0_0000_0000_0000,
        chain.last[i] is Some,
        chain.last[i]->0.embedding.len() > 0,
        signal.embedding.len() > 0,
    ensures
        distances.len() == chain.routes.len(),
        exists|p: &Vec<u64>, q: &Vec<u64>|
            p@ == chain.last[i]->0.embedding && q@ == signal.embedding && #[trigger] call_ensures(
                distance,
                (p, q),
                distances[i],
            ),
{
    crate::number_laws::law_order_of_numbers(0, chain.deadband.tolerance);
    assert(is_measured(
        distance,
        chain.last[i]->0.embedding,
        signal.embedding,
        distances[i],
    ));
}

/// The distance matters exactly if there is a signal before, embeddings are compared, the tolerance
/// is above zero, and both signals have an embedding. It is asked of any function that can be asked
/// about all embeddings, and what it says of the two is taken as it is.
pub proof fn law_distance_matters<D: Fn(&Vec<u64>, &Vec<u64>) -> u64>(
    config: DeadbandConfig,
    previous: Option<&Signal>,
    current: SignalView,
    distance: D,
    a: Seq<u64>,
    b: Seq<u64>,
    d: u64,
)
    ensures
        depends_on_distance(config, said(previous), current) <==> {
            &&& previous is Some
            &&& config.use_embedding
            &&& 0 < config.tolerance <= 0x7FF0_0000_0000_0000
            &&& previous->0.embedding@.len() > 0
            &&& current.embedding.len() > 0
        },
        previous matches Some(p) ==> said(previous) == Some(p@),
        previous is None ==> said(previous) is None,
        is_measured(distance, a, b, d) <==> exists|p: &Vec<u64>, q: &Vec<u64>|
            p@ == a && q@ == b && #[trigger] call_ensures(distance, (p, q), d),
        is_total(distance) <==> forall|p: &Vec<u64>, q: &Vec<u64>| #[trigger]
            call_requires(distance, (p, q)),
{
    crate::number_laws::law_order_of_numbers(0, config.tolerance);
}

// Receiving and broadcasting

/// Receiving empties the room, and counts what waited there; no other room and no other counter
/// changes.
pub proof fn law_receiving_is_counted(chain: ChainView, room: Seq<char>)
    requires
        chain.rooms.dom().contains(room),
        chain.stats.signals_received + chain.rooms[room].len() <= u64::MAX,
    ensures
        ({
            let after = drained(chain, room);
            &&& after.rooms.dom() == chain.rooms.dom()
            &&& after.rooms[room].len() == 0
            &&& forall|other: Seq<char>|
                other != room && chain.rooms.dom().contains(other) ==> #[trigger] after.rooms[other]
                    == chain.rooms[other]
            &&& after.stats.signals_received == chain.stats.signals_received
                + chain.rooms[room].len()
            &&& after.stats.signals_sent == chain.stats.signals_sent
            &&& after.stats.signals_dropped == chain.stats.signals_dropped
            &&& after.stats.deadband_suppressions == chain.stats.deadband_suppressions
            &&& after.stats.rooms_registered == chain.stats.rooms_registered
            &&& after.stats.routes_active == chain.stats.routes_active
            &&& after.routes == chain.routes
            &&& after.last == chain.last
            &&& after.deadband == chain.deadband
        }),
{
    assert(drained(chain, room).rooms.dom() =~= chain.rooms.dom());
}

/// Receiving in a room that is not registered changes nothing.
pub proof fn law_receiving_nowhere(chain: ChainView, room: Seq<char>)
    requires
        !chain.rooms.dom().contains(room),
    ensures
        drained(chain, room) == chain,
{
}

/// A broadcast reaches as many rooms as are registered besides its source, and each of them gets one
/// copy that differs in its target only.
pub proof fn law_broadcast_copies(chain: ChainView, signal: SignalView, room: Seq<char>)
    requires
        chain.rooms.dom().finite(),
    ensures
        audience(chain, signal.source) == chain.rooms.dom().remove(signal.source).len(),
        broadcasted(chain, signal).rooms.dom() == chain.rooms.dom(),
        chain.rooms.dom().contains(room) && room != signal.source ==> {
            let before = chain.rooms[room];
            let after = broadcasted(chain, signal).rooms[room];
            let copy = after.last();
            &&& after.len() == before.len() + 1
            &&& after.drop_last() == before
            &&& copy.target == room
            &&& copy.source == signal.source
            &&& copy.signal_type == signal.signal_type
            &&& copy.payload == signal.payload
            &&& copy.embedding == signal.embedding
            &&& copy.priority == signal.priority
            &&& copy.timestamp == signal.timestamp
            &&& copy.id == signal.id
        },
        chain.rooms.dom().contains(signal.source) ==> broadcasted(chain, signal).rooms[signal.source]
            == chain.rooms[signal.source],
{
    assert(broadcasted(chain, signal).rooms.dom() =~= chain.rooms.dom());
    if !chain.rooms.dom().contains(signal.source) {
        assert(chain.rooms.dom().remove(signal.source) =~= chain.rooms.dom());
    }
    if chain.rooms.dom().contains(room) && room != signal.source {
        assert(broadcasted(chain, signal).rooms[room].drop_last() =~= chain.rooms[room]);
    }
}

/// How many signals wait is the sum over the rooms: nothing where there are none, and with one room
/// more, what waits in it on top.
pub proof fn law_pending(
    rooms: Map<Seq<char>, Seq<SignalView>>,
    room: Seq<char>,
    queue: Seq<SignalView>,
)
    requires
        rooms.dom().finite(),
        !rooms.dom().contains(room),
    ensures
        pending(Map::empty()) == 0,
        pending(rooms.insert(room, queue)) == pending(rooms) + queue.len(),
{
    lemma_pending_insert(rooms, room, queue);
    assert(Map::<Seq<char>, Seq<SignalView>>::empty().dom() =~= Set::empty());
}

// Storms

/// A payload occurs as often as there are signals that carry it.
pub proof fn law_occurrences(queue: Seq<SignalView>, payload: Seq<u8>)
    ensures
        occurrences(queue, payload) == queue.filter(|s: SignalView| s.payload == payload).len(),
    decreases queue.len(),
{
    reveal(Seq::filter);
    if queue.len() > 0 {
        law_occurrences(queue.drop_last(), payload);
    }
}

/// One signal more adds one occurrence of what it carries, and none of anything else.
pub proof fn law_occurrences_grow(queue: Seq<SignalView>, signal: SignalView, payload: Seq<u8>)
    ensures
        occurrences(queue.push(signal), payload) == occurrences(queue, payload) + (
        if signal.payload == payload {
            1int
        } else {
            0
        }),
        occurrences(Seq::empty(), payload) == 0,
{
    assert(queue.push(signal).drop_last() =~= queue);
}

/// Where all signals of a queue carry the same payload, it occurs as often as there are signals.
pub proof fn law_storm_of_one_payload(queue: Seq<SignalView>, payload: Seq<u8>)
    requires
        forall|i: int| 0 <= i < queue.len() ==> (#[trigger] queue[i]).payload == payload,
    ensures
        occurrences(queue, payload) == queue.len(),
        peak(queue) == queue.len(),
    decreases queue.len(),
{
    lemma_all_occur(queue, payload);
    law_peak(queue, payload);
}

proof fn lemma_all_occur(queue: Seq<SignalView>, payload: Seq<u8>)
    requires
        forall|i: int| 0 <= i < queue.len() ==> (#[trigger] queue[i]).payload == payload,
    ensures
        occurrences(queue, payload) == queue.len(),
    decreases queue.len(),
{
    if queue.len() > 0 {
        assert(queue.last() == queue[queue.len() - 1]);
        lemma_all_occur(queue.drop_last(), payload);
    }
}

/// The peak of a queue is the largest number of signals that carry the same payload.
pub proof fn law_peak_is_largest(queue: Seq<SignalView>, payload: Seq<u8>)
    ensures
        queue.filter(|s: SignalView| s.payload == payload).len() <= peak(queue),
        queue.len() > 0 ==> exists|i: int|
            0 <= i < queue.len() && {
                let frequent = (#[trigger] queue[i]).payload;
                queue.filter(|s: SignalView| s.payload == frequent).len() == peak(queue)
            },
        queue.len() == 0 ==> peak(queue) == 0,
{
    law_peak(queue, payload);
    law_occurrences(queue, payload);
    if queue.len() > 0 {
        let i = choose|i: int|
            0 <= i < queue.len() && peak(queue) == occurrences(queue, #[trigger] queue[i].payload);
        let frequent = queue[i].payload;
        law_occurrences(queue, frequent);
        assert(queue.filter(|s: SignalView| s.payload == frequent).len() == peak(queue));
    }
}

// Paths

/// A walk leads from one room to another exactly if it is made of routes, the first starts in the
/// one, each further starts where the one before ends, and the last ends in the other; a walk of no
/// routes leads from a room to itself. It may be of any length.
pub proof fn law_walks(
    routes: Seq<RouteView>,
    from: Seq<char>,
    to: Seq<char>,
    walk: Seq<int>,
)
    ensures
        leads(routes, from, to, walk) <==> {
            &&& forall|k: int| 0 <= k < walk.len() ==> 0 <= #[trigger] walk[k] < routes.len()
            &&& forall|k: int|
                0 <= k < walk.len() ==> routes[#[trigger] walk[k]].from == if k == 0 {
                    from
                } else {
                    routes[walk[k - 1]].to
                }
            &&& walk.len() == 0 ==> from == to
            &&& walk.len() > 0 ==> routes[walk[walk.len() - 1]].to == to
        },
{
    if leads(routes, from, to, walk) {
        assert forall|k: int| 0 <= k < walk.len() implies routes[#[trigger] walk[k]].from == if k
            == 0 {
            from
        } else {
            routes[walk[k - 1]].to
        } by {
            assert(routes[walk[k]].from == stop(routes, from, walk, k));
        }
    }
}

/// The walk that is chosen is a shortest one, and of those as short it takes, where they part, the
/// route that was added first.
pub proof fn law_first_choice(
    routes: Seq<RouteView>,
    from: Seq<char>,
    to: Seq<char>,
    walk: Seq<int>,
    other: Seq<int>,
)
    requires
        is_first_choice(routes, from, to, walk),
        leads(routes, from, to, other),
    ensures
        leads(routes, from, to, walk),
        walk.len() <= other.len(),
        walk.len() == other.len() && walk != other ==> exists|k: int|
            0 <= k < walk.len() && #[trigger] walk[k] < other[k] && walk.take(k) == other.take(k),
{
    if walk.len() == other.len() && walk != other {
        let k = choose|k: int| turns_off_earlier(walk, other, k);
        assert(walk.take(k) =~= other.take(k));
        assert(walk[k] < other[k]);
    }
}

/// The rooms on a walk are where it starts and where each of its routes ends.
pub proof fn law_rooms_along(routes: Seq<RouteView>, from: Seq<char>, walk: Seq<int>)
    ensures
        rooms_along(routes, from, walk) == seq![from] + walk.map_values(|i: int| routes[i].to),
{
    assert(rooms_along(routes, from, walk) =~= seq![from] + walk.map_values(
        |i: int| routes[i].to,
    ));
}

// Ports

/// All filters pass a signal exactly if each of them can say so; a refusal is the first filter that
/// says no, with all before it saying yes.
pub proof fn law_filters<F: Fn(&Signal) -> bool>(filters: Seq<F>, signal: &Signal, i: int)
    ensures
        all_pass(filters, signal) <==> forall|j: int|
            0 <= j < filters.len() ==> call_ensures(#[trigger] filters[j], (signal,), true),
        first_refusal(filters, signal, i) <==> {
            &&& 0 <= i < filters.len()
            &&& call_ensures(filters[i], (signal,), false)
            &&& forall|j: int|
                0 <= j < i ==> call_ensures(#[trigger] filters[j], (signal,), true)
        },
{
}

/// No transforms leave a signal as it is, and one transform more is given what the ones before it
/// made.
pub proof fn law_transforms<T: Fn(&Signal) -> Signal>(
    transforms: Seq<T>,
    last: T,
    signal: Signal,
    out: Signal,
)
    ensures
        transforms_to(Seq::<T>::empty(), signal, out) <==> out == signal,
        transforms_to(transforms.push(last), signal, out) <==> exists|mid: Signal|
            transforms_to(transforms, signal, mid) && #[trigger] call_ensures(last, (&mid,), out),
{
    let all = transforms.push(last);
    assert(all.drop_last() =~= transforms);
    assert(all.last() == last);
}

/// A port that is the same but for a queue is the same in every other part.
pub proof fn law_same_port<F: Fn(&Signal) -> bool, T: Fn(&Signal) -> Signal>(
    a: Port<F, T>,
    b: Port<F, T>,
)
    ensures
        a.same_but_inbound(&b) <==> a.room == b.room && a.outbound == b.outbound && a.filters
            == b.filters && a.transforms == b.transforms,
        a.same_but_outbound(&b) <==> a.room == b.room && a.inbound == b.inbound && a.filters
            == b.filters && a.transforms == b.transforms,
{
}

/// A port can be asked about any signal exactly if all its filters and transforms can.
pub proof fn law_total_port<F: Fn(&Signal) -> bool, T: Fn(&Signal) -> Signal>(port: Port<F, T>)
    ensures
        port.is_total() <==> {
            &&& forall|i: int, s: &Signal|
                0 <= i < port.filters@.len() ==> #[trigger] call_requires(port.filters@[i], (s,))
            &&& forall|i: int, s: &Signal|
                0 <= i < port.transforms@.len() ==> #[trigger] call_requires(
                    port.transforms@[i],
                    (s,),
                )
        },
{
}

} // verus!
