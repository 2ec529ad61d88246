//! What holds of the signal chain as a whole.
use crate::chain::SignalChain;
use crate::deadband::differing;
use crate::deadband::longer;
use crate::deadband::payload_difference;
use crate::deadband::suppresses;
use crate::deadband::DeadbandConfig;
use crate::double::below;
use crate::double::is_nan;
use crate::double::lemma_ratio_of_none;
use crate::double::scaled;
use crate::model::audience;
use crate::model::broadcasted;
use crate::model::counters_allow;
use crate::model::counters_fit;
use crate::model::drained;
use crate::model::has_way_out;
use crate::model::is_delivered_to;
use crate::model::lemma_sent_over_valid;
use crate::model::lemma_tally_total;
use crate::model::outcome;
use crate::model::pending;
use crate::model::refusal;
use crate::model::sent;
use crate::model::waiting;
use crate::model::ways_out;
use crate::model::with_room;
use crate::model::with_route;
use crate::model::ChainStats;
use crate::model::ChainView;
use crate::path::is_first_choice;
use crate::path::leads;
use crate::path::not_after;
use crate::path::rooms_along;
use crate::path::stop;
use crate::path::turns_off_earlier;
use crate::route::RouteView;
use crate::route::RoutingAlgorithm;
use crate::signal::SignalView;
use vstd::prelude::*;

verus! {

// Registration and routing

/// When a room is registered, the other rooms stay registered, what waits in them stays, and the
/// routes stay as they are. Nothing waits in the new room.
pub proof fn law_registration_keeps(chain: ChainView, name: Seq<char>, room: Seq<char>)
    requires
        chain.is_registered(room),
        !chain.is_registered(name),
    ensures
        with_room(chain, name).is_registered(room),
        with_room(chain, name).is_registered(name),
        waiting(with_room(chain, name), room) == waiting(chain, room),
        waiting(with_room(chain, name), name) == Seq::<SignalView>::empty(),
        with_room(chain, name).routes == chain.routes,
{
}

/// An added route is there afterwards, so it cannot be added twice; the other routes stay as they
/// are.
pub proof fn law_route_is_added(
    chain: ChainView,
    from: Seq<char>,
    to: Seq<char>,
    algorithm: RoutingAlgorithm,
)
    ensures
        with_route(chain, from, to, algorithm).has_route(from, to),
        forall|a: Seq<char>, b: Seq<char>| #[trigger]
            chain.has_route(a, b) ==> with_route(chain, from, to, algorithm).has_route(a, b),
        forall|i: int|
            0 <= i < chain.routes.len() ==> #[trigger] with_route(
                chain,
                from,
                to,
                algorithm,
            ).routes[i] == chain.routes[i],
        with_route(chain, from, to, algorithm).rooms == chain.rooms,
{
    let after = with_route(chain, from, to, algorithm);
    let n = chain.routes.len() as int;
    assert(after.routes[n].from == from && after.routes[n].to == to);
    assert forall|a: Seq<char>, b: Seq<char>| #[trigger] chain.has_route(a, b) implies
        after.has_route(a, b) by {
        let i = choose|i: int|
            0 <= i < chain.routes.len() && #[trigger] chain.routes[i].from == a
                && chain.routes[i].to == b;
        assert(after.routes[i].from == a);
    }
}

// Sending

/// Sending a signal counts every route that starts in its source exactly once: as sent, as dropped
/// or as suppressed.
pub proof fn law_every_route_is_counted(
    chain: ChainView,
    signal: SignalView,
    now: u64,
    distances: Seq<u64>,
)
    requires
        chain.valid(),
        refusal(chain, signal.source) is None,
        counters_allow(chain, signal, now, distances),
    ensures
        ({
            let after = sent(chain, signal, now, distances);
            (after.stats.signals_sent - chain.stats.signals_sent) + (after.stats.signals_dropped
                - chain.stats.signals_dropped) + (after.stats.deadband_suppressions
                - chain.stats.deadband_suppressions) == ways_out(
                chain,
                signal.source,
                chain.routes.len(),
            )
        }),
{
    lemma_tally_total(chain, signal, now, distances, chain.routes.len());
}

/// Routes are counted exactly if there are any.
proof fn lemma_ways_out(chain: ChainView, room: Seq<char>, k: nat)
    ensures
        ways_out(chain, room, k) > 0 <==> exists|i: int|
            0 <= i < k && #[trigger] chain.routes[i].from == room,
    decreases k,
{
    if k > 0 {
        let j = (k - 1) as nat;
        lemma_ways_out(chain, room, j);
        if ways_out(chain, room, j) > 0 {
            let i = choose|i: int| 0 <= i < j && #[trigger] chain.routes[i].from == room;
            assert(0 <= i < k && chain.routes[i].from == room);
        }
        if chain.routes[k - 1].from == room {
            assert(0 <= k - 1 < k);
        }
    }
}

/// As long as no counter can overflow whatever becomes of a signal, it can be sent at any time and
/// with any distances.
pub proof fn law_counters_suffice(
    chain: ChainView,
    signal: SignalView,
    now: u64,
    distances: Seq<u64>,
)
    requires
        chain.valid(),
        counters_fit(chain, signal.source),
    ensures
        counters_allow(chain, signal, now, distances),
{
    let n = chain.routes.len();
    lemma_tally_total(chain, signal, now, distances, n);
    lemma_ways_out(chain, signal.source, n);
    if ways_out(chain, signal.source, n) > 0 {
        let i = choose|i: int| 0 <= i < n && #[trigger] chain.routes[i].from == signal.source;
        assert(chain.is_registered(chain.routes[i].from));
    }
}

/// A signal that is refused reaches no room.
pub proof fn law_refused_reaches_nobody(
    chain: ChainView,
    signal: SignalView,
    now: u64,
    distances: Seq<u64>,
)
    requires
        refusal(chain, signal.source) is Some,
    ensures
        sent(chain, signal, now, distances).rooms == chain.rooms,
        sent(chain, signal, now, distances).routes == chain.routes,
        sent(chain, signal, now, distances).last == chain.last,
        !chain.is_registered(signal.source) ==> sent(chain, signal, now, distances) == chain,
{
}

/// A route that delivers a signal puts it, unchanged, at the end of what waits in the room that the
/// route leads to; it is there once.
pub proof fn law_delivery(
    chain: ChainView,
    signal: SignalView,
    now: u64,
    distances: Seq<u64>,
    i: int,
)
    requires
        chain.valid(),
        chain.is_registered(signal.source),
        0 <= i < chain.routes.len(),
        outcome(chain, signal, now, distances, i) is Delivered,
    ensures
        waiting(sent(chain, signal, now, distances), chain.routes[i].to) == waiting(
            chain,
            chain.routes[i].to,
        ).push(signal),
{
    assert(chain.routes[i].from == signal.source);
    assert(has_way_out(chain, signal.source));
    assert(chain.is_registered(chain.routes[i].from));
    let room = chain.routes[i].to;
    assert(is_delivered_to(chain, signal, now, distances, chain.routes.len(), room));
}

/// A room that no route delivers the signal to is left as it is.
pub proof fn law_no_delivery(
    chain: ChainView,
    signal: SignalView,
    now: u64,
    distances: Seq<u64>,
    room: Seq<char>,
)
    requires
        forall|i: int|
            0 <= i < chain.routes.len() && (#[trigger] chain.routes[i]).to == room ==> !(outcome(
                chain,
                signal,
                now,
                distances,
                i,
            ) is Delivered),
    ensures
        waiting(sent(chain, signal, now, distances), room) == waiting(chain, room),
{
}

/// Sending does not change which rooms and which routes there are.
pub proof fn law_sending_keeps_the_network(
    chain: ChainView,
    signal: SignalView,
    now: u64,
    distances: Seq<u64>,
)
    ensures
        ({
            let after = sent(chain, signal, now, distances);
            &&& after.rooms.dom() == chain.rooms.dom()
            &&& after.deadband == chain.deadband
            &&& after.routes.len() == chain.routes.len()
            &&& forall|i: int|
                0 <= i < chain.routes.len() ==> (#[trigger] after.routes[i]).from
                    == chain.routes[i].from && after.routes[i].to == chain.routes[i].to
                    && after.routes[i].algorithm == chain.routes[i].algorithm
        }),
{
    assert(sent(chain, signal, now, distances).rooms.dom() =~= chain.rooms.dom());
}

/// A route that delivers a signal remembers it, and when; every other route keeps what it
/// remembers.
pub proof fn law_memory(
    chain: ChainView,
    signal: SignalView,
    now: u64,
    distances: Seq<u64>,
    i: int,
)
    requires
        chain.valid(),
        0 <= i < chain.routes.len(),
    ensures
        ({
            let after = sent(chain, signal, now, distances);
            if chain.is_registered(signal.source) && outcome(
                chain,
                signal,
                now,
                distances,
                i,
            ) is Delivered {
                &&& after.routes[i].last_payload == Some(signal.payload)
                &&& after.routes[i].last_sent == now
                &&& after.last[i] == Some(signal)
            } else {
                after.routes[i] == chain.routes[i] && after.last[i] == chain.last[i]
            }
        }),
{
    if outcome(chain, signal, now, distances, i) is Delivered {
        assert(chain.routes[i].from == signal.source);
    }
}

/// A direct, a buffered or an adaptive route delivers every signal that the deadband does not suppress.
pub proof fn law_direct(
    chain: ChainView,
    signal: SignalView,
    now: u64,
    distances: Seq<u64>,
    i: int,
)
    requires
        0 <= i < chain.routes.len(),
        chain.routes[i].from == signal.source,
        chain.routes[i].algorithm is Direct || chain.routes[i].algorithm is Buffered
            || chain.routes[i].algorithm is Adaptive,
        !suppresses(chain.deadband, chain.last[i], signal, distances[i]),
    ensures
        outcome(chain, signal, now, distances, i) is Delivered,
{
}

/// Without a deadband, a direct, a buffered or an adaptive route hands on every signal: whatever the
/// time, the signal is the last of those that are received next in the room that the route leads to.
pub proof fn law_send_receive(
    chain: ChainView,
    signal: SignalView,
    now: u64,
    distances: Seq<u64>,
    i: int,
)
    requires
        chain.valid(),
        0 <= i < chain.routes.len(),
        chain.routes[i].from == signal.source,
        chain.routes[i].algorithm is Direct || chain.routes[i].algorithm is Buffered
            || chain.routes[i].algorithm is Adaptive,
        !below(0, chain.deadband.tolerance),
    ensures
        refusal(chain, signal.source) is None,
        waiting(sent(chain, signal, now, distances), chain.routes[i].to) == waiting(
            chain,
            chain.routes[i].to,
        ).push(signal),
{
    assert(chain.is_registered(chain.routes[i].from));
    law_no_tolerance(chain.deadband, chain.last[i], signal, distances[i]);
    law_direct(chain, signal, now, distances, i);
    law_delivery(chain, signal, now, distances, i);
}

/// A correlated route delivers, of the signals that the deadband does not suppress, those whose
/// priority reaches the threshold, and drops the others.
pub proof fn law_correlated(
    chain: ChainView,
    signal: SignalView,
    now: u64,
    distances: Seq<u64>,
    i: int,
    threshold: u8,
)
    requires
        0 <= i < chain.routes.len(),
        chain.routes[i].from == signal.source,
        chain.routes[i].algorithm == (RoutingAlgorithm::Correlated { threshold }),
        !suppresses(chain.deadband, chain.last[i], signal, distances[i]),
    ensures
        signal.priority >= threshold ==> outcome(chain, signal, now, distances, i) is Delivered,
        signal.priority < threshold ==> outcome(chain, signal, now, distances, i) is Dropped,
{
}

/// An on-change route that has just delivered a signal delivers no signal with the same payload,
/// and, unless the deadband suppresses it, every signal with another one.
pub proof fn law_no_repetition_on_change(
    chain: ChainView,
    first: SignalView,
    now1: u64,
    distances1: Seq<u64>,
    second: SignalView,
    now2: u64,
    distances2: Seq<u64>,
    i: int,
)
    requires
        chain.valid(),
        chain.is_registered(first.source),
        0 <= i < chain.routes.len(),
        chain.routes[i].algorithm is OnChange,
        outcome(chain, first, now1, distances1, i) is Delivered,
        second.source == first.source,
    ensures
        ({
            let after = sent(chain, first, now1, distances1);
            let next = outcome(after, second, now2, distances2, i);
            &&& second.payload == first.payload ==> !(next is Delivered)
            &&& second.payload != first.payload ==> next is Delivered || next is Suppressed
        }),
{
    law_memory(chain, first, now1, distances1, i);
    law_sending_keeps_the_network(chain, first, now1, distances1);
}

/// An adaptive route delivers every signal that the deadband does not suppress, however many rooms
/// are registered: it only switches between algorithms that deliver.
pub proof fn law_adaptive(
    chain: ChainView,
    signal: SignalView,
    now: u64,
    distances: Seq<u64>,
    i: int,
)
    requires
        0 <= i < chain.routes.len(),
        chain.routes[i].from == signal.source,
        chain.routes[i].algorithm is Adaptive,
        !suppresses(chain.deadband, chain.last[i], signal, distances[i]),
    ensures
        outcome(chain, signal, now, distances, i) is Delivered,
{
}

// The deadband

/// Without a tolerance above zero nothing is suppressed.
pub proof fn law_no_tolerance(
    config: DeadbandConfig,
    previous: Option<SignalView>,
    current: SignalView,
    distance: u64,
)
    requires
        !below(0, config.tolerance),
    ensures
        !suppresses(config, previous, current, distance),
{
}

/// The first signal is never suppressed.
pub proof fn law_first_signal_passes(
    config: DeadbandConfig,
    current: SignalView,
    distance: u64,
)
    ensures
        !suppresses(config, None, current, distance),
{
}

/// With a tolerance above zero, and embeddings compared, a signal is suppressed as soon as it or
/// the one before it has no embedding.
pub proof fn law_missing_embedding(
    config: DeadbandConfig,
    previous: SignalView,
    current: SignalView,
    distance: u64,
)
    requires
        below(0, config.tolerance),
        config.use_embedding,
        previous.embedding.len() == 0 || current.embedding.len() == 0,
    ensures
        suppresses(config, Some(previous), current, distance),
{
}

/// A larger tolerance suppresses at least as much.
pub proof fn law_larger_tolerance(
    small: DeadbandConfig,
    large: DeadbandConfig,
    previous: Option<SignalView>,
    current: SignalView,
    distance: u64,
)
    requires
        !is_nan(large.tolerance),
        scaled(small.tolerance) <= scaled(large.tolerance),
        small.use_embedding == large.use_embedding,
    ensures
        suppresses(small, previous, current, distance) ==> suppresses(
            large,
            previous,
            current,
            distance,
        ),
{
}

/// Two payloads differ from each other by the same fraction.
pub proof fn law_difference_is_symmetric(a: Seq<u8>, b: Seq<u8>)
    ensures
        payload_difference(a, b) == payload_difference(b, a),
{
    lemma_differing_symmetric(a, b, longer(a, b));
}

proof fn lemma_differing_symmetric(a: Seq<u8>, b: Seq<u8>, n: nat)
    ensures
        differing(a, b, n) == differing(b, a, n),
    decreases n,
{
    if n > 0 {
        lemma_differing_symmetric(a, b, (n - 1) as nat);
    }
}

proof fn lemma_differing_same(a: Seq<u8>, n: nat)
    ensures
        differing(a, a, n) == 0,
    decreases n,
{
    if n > 0 {
        lemma_differing_same(a, (n - 1) as nat);
    }
}

/// A payload does not differ from itself.
pub proof fn law_same_payload_does_not_differ(a: Seq<u8>)
    requires
        a.len() <= u64::MAX,
    ensures
        payload_difference(a, a) == 0,
{
    lemma_differing_same(a, longer(a, a));
    if a.len() > 0 {
        lemma_ratio_of_none(longer(a, a) as int);
    }
}

/// With a tolerance above zero, and payloads compared, a route that has just delivered a signal
/// suppresses one with the same payload.
pub proof fn law_repetition_is_suppressed(
    chain: ChainView,
    first: SignalView,
    now1: u64,
    distances1: Seq<u64>,
    second: SignalView,
    now2: u64,
    distances2: Seq<u64>,
    i: int,
)
    requires
        chain.valid(),
        chain.is_registered(first.source),
        0 <= i < chain.routes.len(),
        outcome(chain, first, now1, distances1, i) is Delivered,
        second.source == first.source,
        second.payload == first.payload,
        first.payload.len() <= u64::MAX,
        below(0, chain.deadband.tolerance),
        !chain.deadband.use_embedding,
    ensures
        outcome(sent(chain, first, now1, distances1), second, now2, distances2, i) is Suppressed,
{
    law_memory(chain, first, now1, distances1, i);
    law_sending_keeps_the_network(chain, first, now1, distances1);
    law_same_payload_does_not_differ(first.payload);
}

// Receiving and broadcasting

/// What has been received is gone: receiving again gives nothing. Other rooms are left as they are.
pub proof fn law_receiving_empties(chain: ChainView, room: Seq<char>, other: Seq<char>)
    ensures
        waiting(drained(chain, room), room) == Seq::<SignalView>::empty(),
        other != room ==> waiting(drained(chain, room), other) == waiting(chain, other),
        drained(chain, room).routes == chain.routes,
        drained(chain, room).last == chain.last,
        drained(drained(chain, room), room) == drained(chain, room),
{
    let once = drained(chain, room);
    if chain.is_registered(room) {
        assert(once.rooms.insert(room, Seq::empty()) =~= once.rooms);
        assert(drained(once, room) =~= once);
    }
}

/// Signals are received in the order in which they were delivered: what waited first comes first.
pub proof fn law_first_in_first_out(
    chain: ChainView,
    first: SignalView,
    now1: u64,
    distances1: Seq<u64>,
    second: SignalView,
    now2: u64,
    distances2: Seq<u64>,
    i: int,
)
    requires
        chain.valid(),
        chain.is_registered(first.source),
        counters_allow(chain, first, now1, distances1),
        0 <= i < chain.routes.len(),
        outcome(chain, first, now1, distances1, i) is Delivered,
        outcome(
            sent(chain, first, now1, distances1),
            second,
            now2,
            distances2,
            i,
        ) is Delivered,
    ensures
        ({
            let after = sent(sent(chain, first, now1, distances1), second, now2, distances2);
            waiting(after, chain.routes[i].to) == waiting(chain, chain.routes[i].to).push(
                first,
            ).push(second)
        }),
{
    let middle = sent(chain, first, now1, distances1);
    assert(chain.routes[i].from == first.source);
    assert(has_way_out(chain, first.source));
    lemma_sent_over_valid(chain, first, now1, distances1, chain.routes.len());
    law_sending_keeps_the_network(chain, first, now1, distances1);
    law_delivery(chain, first, now1, distances1, i);
    assert(middle.routes[i].from == second.source);
    assert(chain.is_registered(chain.routes[i].from));
    law_delivery(middle, second, now2, distances2, i);
}

/// A broadcast reaches every room but its source, once, addressed to that room, and nobody else.
pub proof fn law_broadcast(chain: ChainView, signal: SignalView, room: Seq<char>)
    ensures
        chain.is_registered(room) && room != signal.source ==> waiting(
            broadcasted(chain, signal),
            room,
        ) == waiting(chain, room).push(SignalView { target: room, ..signal }),
        !chain.is_registered(room) || room == signal.source ==> waiting(
            broadcasted(chain, signal),
            room,
        ) == waiting(chain, room),
{
}

/// A broadcast is counted once for each room that it reaches, and no other counter moves.
pub proof fn law_broadcast_is_counted(chain: ChainView, signal: SignalView)
    requires
        chain.valid(),
        chain.stats.signals_sent + audience(chain, signal.source) <= u64::MAX,
    ensures
        broadcasted(chain, signal).stats.signals_sent == chain.stats.signals_sent + audience(
            chain,
            signal.source,
        ),
        broadcasted(chain, signal).stats == (ChainStats {
            signals_sent: broadcasted(chain, signal).stats.signals_sent,
            ..chain.stats
        }),
{
    if chain.is_registered(signal.source) {
        assert(chain.rooms.dom().contains(signal.source));
        assert(chain.rooms.dom().len() > 0);
    }
}

/// A broadcast changes nothing that a route decides by: whatever is sent afterwards fares on each
/// route as if the broadcast had not happened.
pub proof fn law_broadcast_leaves_routes_alone(
    chain: ChainView,
    signal: SignalView,
    later: SignalView,
    now: u64,
    distances: Seq<u64>,
    i: int,
)
    ensures
        ({
            let after = broadcasted(chain, signal);
            &&& after.routes == chain.routes
            &&& after.last == chain.last
            &&& after.deadband == chain.deadband
            &&& refusal(after, later.source) == refusal(chain, later.source)
            &&& outcome(after, later, now, distances, i) == outcome(
                chain,
                later,
                now,
                distances,
                i,
            )
        }),
{
}

/// Every signal that was sent has been received or waits in a room.
pub proof fn law_nothing_is_lost(chain: SignalChain)
    requires
        chain.well_formed(),
    ensures
        chain@.stats.signals_sent == chain@.stats.signals_received + pending(chain@.rooms),
        chain@.stats.rooms_registered == chain@.rooms.dom().len(),
        chain@.stats.routes_active == chain@.routes.len(),
{
    chain.lemma_valid();
}

// Paths

/// The way from a room to itself takes no route.
pub proof fn law_path_to_itself(routes: Seq<RouteView>, room: Seq<char>, walk: Seq<int>)
    requires
        is_first_choice(routes, room, room, walk),
    ensures
        rooms_along(routes, room, walk) == seq![room],
{
    assert(leads(routes, room, room, Seq::empty()));
    assert(walk =~= Seq::<int>::empty());
    assert(rooms_along(routes, room, walk) =~= seq![room]);
}

/// A path starts and ends where it is meant to, and between each two of its rooms there is a route.
pub proof fn law_path_follows_routes(
    routes: Seq<RouteView>,
    from: Seq<char>,
    to: Seq<char>,
    walk: Seq<int>,
    k: int,
)
    requires
        leads(routes, from, to, walk),
    ensures
        rooms_along(routes, from, walk).len() == walk.len() + 1,
        rooms_along(routes, from, walk)[0] == from,
        rooms_along(routes, from, walk)[walk.len() as int] == to,
        0 <= k < walk.len() ==> {
            &&& 0 <= walk[k] < routes.len()
            &&& routes[walk[k]].from == rooms_along(routes, from, walk)[k]
            &&& routes[walk[k]].to == rooms_along(routes, from, walk)[k + 1]
        },
{
}

/// There is only one path of first choice.
pub proof fn law_path_is_unique(
    routes: Seq<RouteView>,
    from: Seq<char>,
    to: Seq<char>,
    a: Seq<int>,
    b: Seq<int>,
)
    requires
        is_first_choice(routes, from, to, a),
        is_first_choice(routes, from, to, b),
    ensures
        a == b,
{
    assert(not_after(a, b) && not_after(b, a));
    if a != b {
        let k = choose|k: int| turns_off_earlier(a, b, k);
        let l = choose|l: int| turns_off_earlier(b, a, l);
        if k < l {
            assert(b[k] == a[k]);
        } else if l < k {
            assert(a[l] == b[l]);
        }
    }
}

/// A walk that comes to a room twice can do without what lies between.
proof fn lemma_shortcut(
    routes: Seq<RouteView>,
    from: Seq<char>,
    to: Seq<char>,
    walk: Seq<int>,
    i: int,
    j: int,
)
    requires
        leads(routes, from, to, walk),
        0 <= i < j <= walk.len(),
        stop(routes, from, walk, i) == stop(routes, from, walk, j),
    ensures
        leads(routes, from, to, walk.take(i) + walk.skip(j)),
{
    let short = walk.take(i) + walk.skip(j);
    let n = short.len() as int;
    assert forall|k: int| 0 <= k < n implies 0 <= #[trigger] short[k] < routes.len()
        && routes[short[k]].from == stop(routes, from, short, k) by {
        if k < i {
            assert(short[k] == walk[k]);
            if k > 0 {
                assert(short[k - 1] == walk[k - 1]);
            }
        } else {
            assert(short[k] == walk[k + j - i]);
            if k > i {
                assert(short[k - 1] == walk[k - 1 + j - i]);
            } else if k > 0 {
                assert(short[k - 1] == walk[k - 1]);
            }
        }
    }
    if n > i {
        assert(short[n - 1] == walk[walk.len() - 1]);
    } else if n > 0 {
        assert(short[n - 1] == walk[n - 1]);
    }
}

/// The path of first choice visits no room twice.
pub proof fn law_path_has_no_detour(
    routes: Seq<RouteView>,
    from: Seq<char>,
    to: Seq<char>,
    walk: Seq<int>,
    i: int,
    j: int,
)
    requires
        is_first_choice(routes, from, to, walk),
        0 <= i < j <= walk.len(),
    ensures
        rooms_along(routes, from, walk)[i] != rooms_along(routes, from, walk)[j],
{
    if stop(routes, from, walk, i) == stop(routes, from, walk, j) {
        lemma_shortcut(routes, from, to, walk, i, j);
        assert(not_after(walk, walk.take(i) + walk.skip(j)));
    }
}

} // verus!
