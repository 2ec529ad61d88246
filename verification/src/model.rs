//! What a signal chain is, apart from how it is held: its rooms, its routes and its counters, and
//! what sending, receiving and broadcasting do to them.
use crate::deadband::suppresses;
use crate::deadband::DeadbandConfig;
use crate::route::fresh_route;
use crate::route::passed;
use crate::route::passes;
use crate::route::RouteView;
use crate::route::RoutingAlgorithm;
use crate::signal::SignalView;
use vstd::prelude::*;

verus! {

/// Counters of a signal chain.
#[derive(Debug, Clone, Copy)]
pub struct ChainStats {
    pub signals_sent: u64,
    pub signals_received: u64,
    pub signals_dropped: u64,
    pub deadband_suppressions: u64,
    pub rooms_registered: usize,
    pub routes_active: usize,
}

impl Default for ChainStats {
    fn default() -> (r: Self)
        ensures
            r == zero_stats(),
    {
        ChainStats {
            signals_sent: 0,
            signals_received: 0,
            signals_dropped: 0,
            deadband_suppressions: 0,
            rooms_registered: 0,
            routes_active: 0,
        }
    }
}

/// Counters that stand at zero.
pub open spec fn zero_stats() -> ChainStats {
    ChainStats {
        signals_sent: 0,
        signals_received: 0,
        signals_dropped: 0,
        deadband_suppressions: 0,
        rooms_registered: 0,
        routes_active: 0,
    }
}

/// The state of a signal chain.
#[verifier::ext_equal]
pub struct ChainView {
    /// The signals that wait in each registered room, in the order in which they came.
    pub rooms: Map<Seq<char>, Seq<SignalView>>,
    /// The routes, in the order in which they were added.
    pub routes: Seq<RouteView>,
    /// The signal that each route delivered last.
    pub last: Seq<Option<SignalView>>,
    pub deadband: DeadbandConfig,
    pub stats: ChainStats,
}

/// How many signals wait in all rooms together.
pub open spec fn pending(rooms: Map<Seq<char>, Seq<SignalView>>) -> nat
    decreases rooms.dom().len(),
    when rooms.dom().finite()
{
    if rooms.dom().len() == 0 {
        0
    } else {
        let room = rooms.dom().choose();
        rooms[room].len() + pending(rooms.remove(room))
    }
}

/// The route and the signal that it delivered last agree.
pub open spec fn remembers(route: RouteView, last: Option<SignalView>) -> bool {
    match last {
        Some(signal) => route.last_payload == Some(signal.payload),
        None => route.last_payload is None && route.last_sent == 0,
    }
}

impl ChainView {
    /// There is a room of that name.
    pub open spec fn is_registered(self, room: Seq<char>) -> bool {
        self.rooms.contains_key(room)
    }

    /// There is a route between the two rooms.
    pub open spec fn has_route(self, from: Seq<char>, to: Seq<char>) -> bool {
        exists|i: int|
            0 <= i < self.routes.len() && #[trigger] self.routes[i].from == from
                && self.routes[i].to == to
    }

    /// What holds of every chain: the counters of rooms and routes are right, routes join
    /// registered rooms, no two routes join the same rooms in the same direction, a route
    /// remembers what it delivered last, and every signal sent has been received or is waiting.
    pub open spec fn valid(self) -> bool {
        &&& self.rooms.dom().finite()
        &&& self.stats.rooms_registered == self.rooms.dom().len()
        &&& self.stats.routes_active == self.routes.len()
        &&& self.last.len() == self.routes.len()
        &&& forall|i: int|
            0 <= i < self.routes.len() ==> self.is_registered(#[trigger] self.routes[i].from)
                && self.is_registered(self.routes[i].to) && remembers(
                self.routes[i],
                self.last[i],
            )
        &&& forall|i: int, j: int|
            0 <= i < j < self.routes.len() ==> (#[trigger] self.routes[i]).from
                != (#[trigger] self.routes[j]).from || self.routes[i].to != self.routes[j].to
        &&& self.stats.signals_sent == self.stats.signals_received + pending(self.rooms)
    }
}

/// A chain without rooms and without routes.
pub open spec fn empty_chain() -> ChainView {
    ChainView {
        rooms: Map::empty(),
        routes: Seq::empty(),
        last: Seq::empty(),
        deadband: DeadbandConfig { tolerance: 0, use_embedding: false },
        stats: zero_stats(),
    }
}

/// The chain with one room more, in which nothing waits.
pub open spec fn with_room(chain: ChainView, name: Seq<char>) -> ChainView {
    ChainView {
        rooms: chain.rooms.insert(name, Seq::empty()),
        stats: ChainStats {
            rooms_registered: (chain.stats.rooms_registered + 1) as usize,
            ..chain.stats
        },
        ..chain
    }
}

/// The chain with one route more.
pub open spec fn with_route(
    chain: ChainView,
    from: Seq<char>,
    to: Seq<char>,
    algorithm: RoutingAlgorithm,
) -> ChainView {
    ChainView {
        routes: chain.routes.push(fresh_route(from, to, algorithm)),
        last: chain.last.push(None),
        stats: ChainStats {
            routes_active: (chain.stats.routes_active + 1) as usize,
            ..chain.stats
        },
        ..chain
    }
}

// Sending

/// What becomes of a signal on a route.
pub enum Outcome {
    /// The route starts in another room.
    Elsewhere,
    /// The signal stays within the deadband around the last one.
    Suppressed,
    /// The routing algorithm does not let the signal pass.
    Dropped,
    /// The signal is delivered.
    Delivered,
}

/// What becomes of `signal` on the route at `i`, at time `now`, where the distance between its
/// embedding and that of the last signal is `distances[i]`.
pub open spec fn outcome(
    chain: ChainView,
    signal: SignalView,
    now: u64,
    distances: Seq<u64>,
    i: int,
) -> Outcome {
    if chain.routes[i].from != signal.source {
        Outcome::Elsewhere
    } else if suppresses(chain.deadband, chain.last[i], signal, distances[i]) {
        Outcome::Suppressed
    } else if !passes(chain.routes[i], signal, now) {
        Outcome::Dropped
    } else {
        Outcome::Delivered
    }
}

/// On how many of the first `k` routes `what` becomes of the signal.
pub open spec fn tally(
    chain: ChainView,
    signal: SignalView,
    now: u64,
    distances: Seq<u64>,
    k: nat,
    what: Outcome,
) -> nat
    decreases k,
{
    if k == 0 {
        0
    } else {
        tally(chain, signal, now, distances, (k - 1) as nat, what) + if outcome(
            chain,
            signal,
            now,
            distances,
            k - 1,
        ) == what {
            1nat
        } else {
            0
        }
    }
}

/// One of the first `k` routes delivers the signal to `room`.
pub open spec fn is_delivered_to(
    chain: ChainView,
    signal: SignalView,
    now: u64,
    distances: Seq<u64>,
    k: nat,
    room: Seq<char>,
) -> bool {
    exists|i: int|
        0 <= i < k && (#[trigger] chain.routes[i]).to == room && outcome(
            chain,
            signal,
            now,
            distances,
            i,
        ) is Delivered
}

/// The chain after the signal has been sent over the first `k` routes: each route that delivers it
/// remembers it, it waits at the end of each room that it was delivered to, and each of these
/// routes is counted once unless it starts elsewhere.
pub open spec fn sent_over(
    chain: ChainView,
    signal: SignalView,
    now: u64,
    distances: Seq<u64>,
    k: nat,
) -> ChainView {
    ChainView {
        rooms: Map::new(
            |room: Seq<char>| chain.rooms.contains_key(room),
            |room: Seq<char>|
                if is_delivered_to(chain, signal, now, distances, k, room) {
                    chain.rooms[room].push(signal)
                } else {
                    chain.rooms[room]
                },
        ),
        routes: Seq::new(
            chain.routes.len(),
            |i: int|
                if i < k && outcome(chain, signal, now, distances, i) is Delivered {
                    passed(chain.routes[i], signal, now)
                } else {
                    chain.routes[i]
                },
        ),
        last: Seq::new(
            chain.last.len(),
            |i: int|
                if i < k && outcome(chain, signal, now, distances, i) is Delivered {
                    Some(signal)
                } else {
                    chain.last[i]
                },
        ),
        deadband: chain.deadband,
        stats: ChainStats {
            signals_sent: (chain.stats.signals_sent + tally(
                chain,
                signal,
                now,
                distances,
                k,
                Outcome::Delivered,
            )) as u64,
            signals_dropped: (chain.stats.signals_dropped + tally(
                chain,
                signal,
                now,
                distances,
                k,
                Outcome::Dropped,
            )) as u64,
            deadband_suppressions: (chain.stats.deadband_suppressions + tally(
                chain,
                signal,
                now,
                distances,
                k,
                Outcome::Suppressed,
            )) as u64,
            ..chain.stats
        },
    }
}

/// A route starts in `room`.
pub open spec fn has_way_out(chain: ChainView, room: Seq<char>) -> bool {
    exists|i: int| 0 <= i < chain.routes.len() && #[trigger] chain.routes[i].from == room
}

/// Why a signal from `source` cannot be sent at all, if it cannot.
pub open spec fn refusal(chain: ChainView, source: Seq<char>) -> Option<Seq<char>> {
    if !chain.is_registered(source) {
        Some("source room not registered"@)
    } else if !has_way_out(chain, source) {
        Some("no matching route"@)
    } else {
        None
    }
}

/// The chain after `signal` has been sent at time `now`. A signal from an unknown room leaves it
/// as it is; one from a room without a way out is counted as dropped.
pub open spec fn sent(
    chain: ChainView,
    signal: SignalView,
    now: u64,
    distances: Seq<u64>,
) -> ChainView {
    if !chain.is_registered(signal.source) {
        chain
    } else if !has_way_out(chain, signal.source) {
        ChainView {
            stats: ChainStats {
                signals_dropped: (chain.stats.signals_dropped + 1) as u64,
                ..chain.stats
            },
            ..chain
        }
    } else {
        sent_over(chain, signal, now, distances, chain.routes.len())
    }
}

/// No counter overflows when `signal` is sent.
pub open spec fn counters_allow(
    chain: ChainView,
    signal: SignalView,
    now: u64,
    distances: Seq<u64>,
) -> bool {
    let n = chain.routes.len();
    &&& chain.stats.signals_sent + tally(chain, signal, now, distances, n, Outcome::Delivered)
        <= u64::MAX
    &&& chain.stats.signals_dropped + tally(chain, signal, now, distances, n, Outcome::Dropped)
        <= u64::MAX
    &&& chain.stats.deadband_suppressions + tally(
        chain,
        signal,
        now,
        distances,
        n,
        Outcome::Suppressed,
    ) <= u64::MAX
    &&& chain.is_registered(signal.source) && !has_way_out(chain, signal.source)
        ==> chain.stats.signals_dropped < u64::MAX
}

/// How many of the first `k` routes start in `room`.
pub open spec fn ways_out(chain: ChainView, room: Seq<char>, k: nat) -> nat
    decreases k,
{
    if k == 0 {
        0
    } else {
        ways_out(chain, room, (k - 1) as nat) + if chain.routes[k - 1].from == room {
            1nat
        } else {
            0
        }
    }
}

/// No counter overflows when a signal is sent from `source`, whatever becomes of it on each route.
pub open spec fn counters_fit(chain: ChainView, source: Seq<char>) -> bool {
    let n = ways_out(chain, source, chain.routes.len());
    if !chain.is_registered(source) {
        true
    } else if n == 0 {
        chain.stats.signals_dropped < u64::MAX
    } else {
        &&& chain.stats.signals_sent + n <= u64::MAX
        &&& chain.stats.signals_dropped + n <= u64::MAX
        &&& chain.stats.deadband_suppressions + n <= u64::MAX
    }
}

/// Every route that starts in the source of the signal is counted once: as delivered, as dropped
/// or as suppressed.
pub proof fn lemma_tally_total(
    chain: ChainView,
    signal: SignalView,
    now: u64,
    distances: Seq<u64>,
    k: nat,
)
    ensures
        tally(chain, signal, now, distances, k, Outcome::Delivered) + tally(
            chain,
            signal,
            now,
            distances,
            k,
            Outcome::Dropped,
        ) + tally(chain, signal, now, distances, k, Outcome::Suppressed) == ways_out(
            chain,
            signal.source,
            k,
        ),
    decreases k,
{
    if k > 0 {
        lemma_tally_total(chain, signal, now, distances, (k - 1) as nat);
    }
}

// Receiving and broadcasting

/// The signals that wait in `room`; none where there is no such room.
pub open spec fn waiting(chain: ChainView, room: Seq<char>) -> Seq<SignalView> {
    if chain.is_registered(room) {
        chain.rooms[room]
    } else {
        Seq::empty()
    }
}

/// The chain after all signals that wait in `room` have been received.
pub open spec fn drained(chain: ChainView, room: Seq<char>) -> ChainView {
    if chain.is_registered(room) {
        ChainView {
            rooms: chain.rooms.insert(room, Seq::empty()),
            stats: ChainStats {
                signals_received: (chain.stats.signals_received + chain.rooms[room].len()) as u64,
                ..chain.stats
            },
            ..chain
        }
    } else {
        chain
    }
}

/// How many rooms a broadcast from `source` reaches.
pub open spec fn audience(chain: ChainView, source: Seq<char>) -> int {
    chain.rooms.dom().len() - if chain.is_registered(source) {
        1int
    } else {
        0
    }
}

/// The chain after `signal` has been broadcast: it waits, addressed to that room, at the end of
/// every room but its source.
pub open spec fn broadcasted(chain: ChainView, signal: SignalView) -> ChainView {
    ChainView {
        rooms: Map::new(
            |room: Seq<char>| chain.rooms.contains_key(room),
            |room: Seq<char>|
                if room == signal.source {
                    chain.rooms[room]
                } else {
                    chain.rooms[room].push(SignalView { target: room, ..signal })
                },
        ),
        stats: ChainStats {
            signals_sent: (chain.stats.signals_sent + audience(chain, signal.source)) as u64,
            ..chain.stats
        },
        ..chain
    }
}

// Counting what waits

/// The order in which rooms are counted does not matter.
pub proof fn lemma_pending_remove(rooms: Map<Seq<char>, Seq<SignalView>>, room: Seq<char>)
    requires
        rooms.dom().finite(),
        rooms.contains_key(room),
    ensures
        pending(rooms) == rooms[room].len() + pending(rooms.remove(room)),
    decreases rooms.dom().len(),
{
    let first = rooms.dom().choose();
    assert(rooms.dom().len() > 0);
    assert(rooms.dom().contains(first));
    if first != room {
        lemma_pending_remove(rooms.remove(first), room);
        lemma_pending_remove(rooms.remove(room), first);
        assert(rooms.remove(first).remove(room) =~= rooms.remove(room).remove(first));
    }
}

/// Replacing what waits in one room.
pub proof fn lemma_pending_insert(
    rooms: Map<Seq<char>, Seq<SignalView>>,
    room: Seq<char>,
    queue: Seq<SignalView>,
)
    requires
        rooms.dom().finite(),
    ensures
        rooms.contains_key(room) ==> pending(rooms.insert(room, queue)) == pending(rooms)
            - rooms[room].len() + queue.len(),
        !rooms.contains_key(room) ==> pending(rooms.insert(room, queue)) == pending(rooms)
            + queue.len(),
{
    let after = rooms.insert(room, queue);
    lemma_pending_remove(after, room);
    assert(after.remove(room) =~= rooms.remove(room));
    if rooms.contains_key(room) {
        lemma_pending_remove(rooms, room);
    } else {
        assert(rooms.remove(room) =~= rooms);
    }
}

// What each step keeps

/// A chain stays valid when a room is added.
pub proof fn lemma_with_room_valid(chain: ChainView, name: Seq<char>)
    requires
        chain.valid(),
        !chain.is_registered(name),
        chain.stats.rooms_registered < usize::MAX,
    ensures
        with_room(chain, name).valid(),
{
    lemma_pending_insert(chain.rooms, name, Seq::empty());
    let after = with_room(chain, name);
    assert forall|i: int| 0 <= i < after.routes.len() implies after.is_registered(
        #[trigger] after.routes[i].from,
    ) && after.is_registered(after.routes[i].to) && remembers(
        after.routes[i],
        after.last[i],
    ) by {
        assert(chain.is_registered(chain.routes[i].from));
    }
}

/// A chain stays valid when a route between two of its rooms is added that it does not have.
pub proof fn lemma_with_route_valid(
    chain: ChainView,
    from: Seq<char>,
    to: Seq<char>,
    algorithm: RoutingAlgorithm,
)
    requires
        chain.valid(),
        chain.is_registered(from),
        chain.is_registered(to),
        !chain.has_route(from, to),
        chain.stats.routes_active < usize::MAX,
    ensures
        with_route(chain, from, to, algorithm).valid(),
{
    let after = with_route(chain, from, to, algorithm);
    assert forall|i: int| 0 <= i < after.routes.len() implies after.is_registered(
        #[trigger] after.routes[i].from,
    ) && after.is_registered(after.routes[i].to) && remembers(
        after.routes[i],
        after.last[i],
    ) by {
        if i < chain.routes.len() {
            assert(chain.is_registered(chain.routes[i].from));
        }
    }
    assert forall|i: int, j: int| 0 <= i < j < after.routes.len() implies (
    #[trigger] after.routes[i]).from != (#[trigger] after.routes[j]).from || after.routes[i].to
        != after.routes[j].to by {
        assert(after.routes[i] == chain.routes[i]);
        if j < chain.routes.len() {
            assert(after.routes[j] == chain.routes[j]);
        }
    }
}

/// What sending over one route more does: nothing where the route starts elsewhere, one count
/// where the signal is suppressed or dropped, and otherwise a delivery.
pub proof fn lemma_sent_step(
    chain: ChainView,
    signal: SignalView,
    now: u64,
    distances: Seq<u64>,
    k: int,
)
    requires
        chain.valid(),
        0 <= k < chain.routes.len(),
    ensures
        ({
            let before = sent_over(chain, signal, now, distances, k as nat);
            let after = sent_over(chain, signal, now, distances, (k + 1) as nat);
            let to = chain.routes[k].to;
            &&& before.routes[k] == chain.routes[k]
            &&& before.last[k] == chain.last[k]
            &&& before.rooms.dom() == chain.rooms.dom()
            &&& after.rooms.dom() == chain.rooms.dom()
            &&& if outcome(chain, signal, now, distances, k) is Delivered {
                &&& before.rooms[to] == chain.rooms[to]
                &&& after.rooms == before.rooms.insert(to, before.rooms[to].push(signal))
                &&& after.routes == before.routes.update(k, passed(before.routes[k], signal, now))
                &&& after.last == before.last.update(k, Some(signal))
            } else {
                &&& after.rooms == before.rooms
                &&& after.routes == before.routes
                &&& after.last == before.last
            }
        }),
{
    let before = sent_over(chain, signal, now, distances, k as nat);
    let after = sent_over(chain, signal, now, distances, (k + 1) as nat);
    let to = chain.routes[k].to;
    assert(before.rooms.dom() =~= chain.rooms.dom());
    assert(after.rooms.dom() =~= chain.rooms.dom());
    assert(chain.is_registered(chain.routes[k].from));
    assert forall|room: Seq<char>|
        #![trigger is_delivered_to(chain, signal, now, distances, (k + 1) as nat, room)]
        is_delivered_to(chain, signal, now, distances, (k + 1) as nat, room) == (is_delivered_to(
            chain,
            signal,
            now,
            distances,
            k as nat,
            room,
        ) || (room == to && outcome(chain, signal, now, distances, k) is Delivered)) by {
        if is_delivered_to(chain, signal, now, distances, k as nat, room) {
            let i = choose|i: int|
                0 <= i < k && (#[trigger] chain.routes[i]).to == room && outcome(
                    chain,
                    signal,
                    now,
                    distances,
                    i,
                ) is Delivered;
            assert(0 <= i < k + 1 && chain.routes[i].to == room);
        }
        if room == to && outcome(chain, signal, now, distances, k) is Delivered {
            assert(chain.routes[k].to == room);
        }
    }
    if outcome(chain, signal, now, distances, k) is Delivered {
        assert(!is_delivered_to(chain, signal, now, distances, k as nat, to)) by {
            if is_delivered_to(chain, signal, now, distances, k as nat, to) {
                let i = choose|i: int|
                    0 <= i < k && (#[trigger] chain.routes[i]).to == to && outcome(
                        chain,
                        signal,
                        now,
                        distances,
                        i,
                    ) is Delivered;
                assert(chain.routes[i].from == chain.routes[k].from);
            }
        }
        assert(after.rooms =~= before.rooms.insert(to, before.rooms[to].push(signal)));
        assert(after.routes =~= before.routes.update(k, passed(before.routes[k], signal, now)));
        assert(after.last =~= before.last.update(k, Some(signal)));
    } else {
        assert(after.rooms =~= before.rooms);
        assert(after.routes =~= before.routes);
        assert(after.last =~= before.last);
    }
}

/// Over no routes at all nothing is sent.
pub proof fn lemma_sent_over_none(
    chain: ChainView,
    signal: SignalView,
    now: u64,
    distances: Seq<u64>,
)
    ensures
        sent_over(chain, signal, now, distances, 0) == chain,
{
    let after = sent_over(chain, signal, now, distances, 0);
    assert(after.rooms =~= chain.rooms);
    assert(after.routes =~= chain.routes);
    assert(after.last =~= chain.last);
}

/// The tally grows with the number of routes.
pub proof fn lemma_tally_grows(
    chain: ChainView,
    signal: SignalView,
    now: u64,
    distances: Seq<u64>,
    k: nat,
    n: nat,
    what: Outcome,
)
    requires
        k <= n,
    ensures
        tally(chain, signal, now, distances, k, what) <= tally(
            chain,
            signal,
            now,
            distances,
            n,
            what,
        ),
    decreases n,
{
    if k < n {
        lemma_tally_grows(chain, signal, now, distances, k, (n - 1) as nat, what);
    }
}

/// A chain stays valid while a signal is sent, and what waits grows by what is delivered.
pub proof fn lemma_sent_over_valid(
    chain: ChainView,
    signal: SignalView,
    now: u64,
    distances: Seq<u64>,
    k: nat,
)
    requires
        chain.valid(),
        k <= chain.routes.len(),
        counters_allow(chain, signal, now, distances),
    ensures
        sent_over(chain, signal, now, distances, k).valid(),
        pending(sent_over(chain, signal, now, distances, k).rooms) == pending(chain.rooms)
            + tally(chain, signal, now, distances, k, Outcome::Delivered),
    decreases k,
{
    let after = sent_over(chain, signal, now, distances, k);
    lemma_tally_grows(
        chain,
        signal,
        now,
        distances,
        k,
        chain.routes.len(),
        Outcome::Delivered,
    );
    if k == 0 {
        lemma_sent_over_none(chain, signal, now, distances);
    } else {
        let j = (k - 1) as nat;
        lemma_sent_over_valid(chain, signal, now, distances, j);
        lemma_sent_step(chain, signal, now, distances, j as int);
        let before = sent_over(chain, signal, now, distances, j);
        let to = chain.routes[j as int].to;
        assert(chain.is_registered(chain.routes[j as int].from));
        lemma_pending_insert(before.rooms, to, before.rooms[to].push(signal));
        assert forall|i: int| 0 <= i < after.routes.len() implies after.is_registered(
            #[trigger] after.routes[i].from,
        ) && after.is_registered(after.routes[i].to) && remembers(
            after.routes[i],
            after.last[i],
        ) by {
            assert(chain.is_registered(chain.routes[i].from));
        }
        assert forall|i: int, l: int| 0 <= i < l < after.routes.len() implies (
        #[trigger] after.routes[i]).from != (#[trigger] after.routes[l]).from
            || after.routes[i].to != after.routes[l].to by {
            assert(chain.routes[i].from != chain.routes[l].from || chain.routes[i].to
                != chain.routes[l].to);
        }
    }
}

/// Validity carries over where the rooms, the routes and what they remember stay the same, and the
/// counters of signals agree with what waits.
pub proof fn lemma_valid_carries_over(before: ChainView, after: ChainView)
    requires
        before.valid(),
        after.rooms.dom() == before.rooms.dom(),
        after.routes == before.routes,
        after.last == before.last,
        after.stats.rooms_registered == before.stats.rooms_registered,
        after.stats.routes_active == before.stats.routes_active,
        after.stats.signals_sent == after.stats.signals_received + pending(after.rooms),
    ensures
        after.valid(),
{
    assert forall|i: int| 0 <= i < after.routes.len() implies after.is_registered(
        #[trigger] after.routes[i].from,
    ) && after.is_registered(after.routes[i].to) && remembers(
        after.routes[i],
        after.last[i],
    ) by {
        assert(before.is_registered(before.routes[i].from));
    }
}

/// A chain stays valid when a room is drained.
pub proof fn lemma_drained_valid(chain: ChainView, room: Seq<char>)
    requires
        chain.valid(),
    ensures
        drained(chain, room).valid(),
{
    if chain.is_registered(room) {
        let after = drained(chain, room);
        lemma_pending_insert(chain.rooms, room, Seq::empty());
        assert(after.rooms.dom() =~= chain.rooms.dom());
        lemma_valid_carries_over(chain, after);
    }
}

} // verus!
