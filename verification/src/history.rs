//! What holds of a signal chain over any sequence of calls.
use crate::deadband::suppresses;
use crate::deadband::DeadbandConfig;
use crate::laws::law_sending_keeps_the_network;
use crate::model::broadcasted;
use crate::model::drained;
use crate::model::empty_chain;
use crate::model::has_way_out;
use crate::model::is_delivered_to;
use crate::model::outcome;
use crate::model::sent;
use crate::model::waiting;
use crate::model::with_room;
use crate::model::with_route;
use crate::model::ChainView;
use crate::route::RoutingAlgorithm;
use crate::signal::SignalView;
use vstd::prelude::*;

verus! {

/// A call on a chain.
pub enum Step {
    /// A room is registered.
    Register { name: Seq<char> },
    /// A route is added.
    Connect { from: Seq<char>, to: Seq<char>, algorithm: RoutingAlgorithm },
    /// The deadband is replaced.
    Configure { deadband: DeadbandConfig },
    /// A signal is sent at the time `now`.
    Send { signal: SignalView, now: u64, distances: Seq<u64> },
    /// A room receives what waits in it.
    Receive { room: Seq<char> },
    /// A signal is broadcast.
    Broadcast { signal: SignalView },
}

/// The chain after a call.
pub open spec fn after_step(chain: ChainView, step: Step) -> ChainView {
    match step {
        Step::Register { name } => if chain.is_registered(name) {
            chain
        } else {
            with_room(chain, name)
        },
        Step::Connect { from, to, algorithm } => if chain.is_registered(from)
            && chain.is_registered(to) && !chain.has_route(from, to) {
            with_route(chain, from, to, algorithm)
        } else {
            chain
        },
        Step::Configure { deadband } => ChainView { deadband, ..chain },
        Step::Send { signal, now, distances } => sent(chain, signal, now, distances),
        Step::Receive { room } => drained(chain, room),
        Step::Broadcast { signal } => broadcasted(chain, signal),
    }
}

/// The chain after the first `k` calls.
pub open spec fn after(start: ChainView, steps: Seq<Step>, k: nat) -> ChainView
    decreases k,
{
    if k == 0 {
        start
    } else {
        after_step(after(start, steps, (k - 1) as nat), steps[k - 1])
    }
}

/// The call delivers a signal over the route at `i`.
pub open spec fn delivers(chain: ChainView, step: Step, i: int) -> bool {
    match step {
        Step::Send { signal, now, distances } => {
            &&& chain.is_registered(signal.source)
            &&& 0 <= i < chain.routes.len()
            &&& outcome(chain, signal, now, distances, i) is Delivered
        },
        _ => false,
    }
}

/// The time of a call that sends; zero for the others, which read no clock.
pub open spec fn time_of(step: Step) -> u64 {
    match step {
        Step::Send { now, .. } => now,
        _ => 0,
    }
}

/// Between two calls that send, the clock does not go back.
pub open spec fn clock_never_goes_back(steps: Seq<Step>) -> bool {
    forall|p: int, q: int|
        0 <= p < q < steps.len() && (#[trigger] steps[p]) is Send && (#[trigger] steps[q]) is Send
            ==> time_of(steps[p]) <= time_of(steps[q])
}

/// The signal that the route at `i` delivered last in the first `k` calls on a new chain, and when.
pub open spec fn last_delivery(steps: Seq<Step>, k: nat, i: int) -> Option<(SignalView, u64)>
    decreases k,
{
    if k == 0 {
        None
    } else {
        let before = after(empty_chain(), steps, (k - 1) as nat);
        match steps[k - 1] {
            Step::Send { signal, now, .. } if delivers(before, steps[k - 1], i) => Some(
                (signal, now),
            ),
            _ => last_delivery(steps, (k - 1) as nat, i),
        }
    }
}

/// What a call does to a route that is there: it stays where it is, and what it remembers changes
/// only if it delivers a signal.
pub proof fn law_step_keeps_route(chain: ChainView, step: Step, i: int)
    requires
        0 <= i < chain.routes.len(),
        chain.last.len() == chain.routes.len(),
    ensures
        ({
            let next = after_step(chain, step);
            &&& next.routes.len() >= chain.routes.len()
            &&& next.last.len() == next.routes.len()
            &&& next.routes[i].from == chain.routes[i].from
            &&& next.routes[i].to == chain.routes[i].to
            &&& next.routes[i].algorithm == chain.routes[i].algorithm
            &&& match step {
                Step::Send { signal, now, .. } if delivers(chain, step, i) => {
                    &&& next.routes[i].last_payload == Some(signal.payload)
                    &&& next.routes[i].last_sent == now
                    &&& next.last[i] == Some(signal)
                },
                _ => next.routes[i] == chain.routes[i] && next.last[i] == chain.last[i],
            }
        }),
{
    match step {
        Step::Send { signal, now, distances } => {
            law_sending_keeps_the_network(chain, signal, now, distances);
            if delivers(chain, step, i) {
                assert(chain.routes[i].from == signal.source);
                assert(has_way_out(chain, signal.source));
            }
        },
        _ => {},
    }
}

/// A call adds at most one route, which remembers nothing yet.
proof fn lemma_step_lengths(chain: ChainView, step: Step)
    requires
        chain.last.len() == chain.routes.len(),
    ensures
        ({
            let next = after_step(chain, step);
            &&& next.last.len() == next.routes.len()
            &&& next.routes.len() <= chain.routes.len() + 1
            &&& next.routes.len() > chain.routes.len() ==> {
                let new = chain.routes.len() as int;
                &&& next.routes[new].last_payload is None
                &&& next.routes[new].last_sent == 0
                &&& next.last[new] is None
            }
        }),
{
}

/// In every chain, whatever calls led to it, each route remembers the signal that it delivered
/// last, and when; a route that has delivered nothing remembers nothing, and the time zero.
pub proof fn law_memory_of_history(steps: Seq<Step>, k: nat, i: int)
    requires
        k <= steps.len(),
        0 <= i,
    ensures
        ({
            let chain = after(empty_chain(), steps, k);
            &&& chain.last.len() == chain.routes.len()
            &&& i >= chain.routes.len() ==> last_delivery(steps, k, i) is None
            &&& i < chain.routes.len() ==> match last_delivery(steps, k, i) {
                Some((signal, now)) => {
                    &&& chain.last[i] == Some(signal)
                    &&& chain.routes[i].last_payload == Some(signal.payload)
                    &&& chain.routes[i].last_sent == now
                },
                None => {
                    &&& chain.last[i] is None
                    &&& chain.routes[i].last_payload is None
                    &&& chain.routes[i].last_sent == 0
                },
            }
        }),
    decreases k,
{
    if k > 0 {
        let j = (k - 1) as nat;
        let before = after(empty_chain(), steps, j);
        law_memory_of_history(steps, j, i);
        lemma_step_lengths(before, steps[j as int]);
        if i < before.routes.len() {
            law_step_keeps_route(before, steps[j as int], i);
        }
    }
}

/// In every chain, a sampled route delivers a signal that the deadband does not suppress exactly if
/// the time since its last delivery, counted from zero where there was none, reaches the interval.
/// Where the clock has gone back, no time counts as passed.
pub proof fn law_sampled(
    steps: Seq<Step>,
    k: nat,
    signal: SignalView,
    now: u64,
    distances: Seq<u64>,
    i: int,
    interval_ms: u64,
)
    requires
        k <= steps.len(),
        0 <= i < after(empty_chain(), steps, k).routes.len(),
        ({
            let chain = after(empty_chain(), steps, k);
            &&& chain.routes[i].from == signal.source
            &&& chain.routes[i].algorithm == (RoutingAlgorithm::Sampled { interval_ms })
            &&& !suppresses(chain.deadband, chain.last[i], signal, distances[i])
        }),
    ensures
        ({
            let chain = after(empty_chain(), steps, k);
            let last = match last_delivery(steps, k, i) {
                Some((_, then)) => then as int,
                None => 0,
            };
            let passed = if now >= last {
                now - last
            } else {
                0
            };
            outcome(chain, signal, now, distances, i) is Delivered <==> passed >= interval_ms
        }),
{
    law_memory_of_history(steps, k, i);
}

/// In every chain, an on-change route delivers a signal that the deadband does not suppress exactly
/// if it has delivered nothing yet, or a signal with another payload last.
pub proof fn law_on_change(
    steps: Seq<Step>,
    k: nat,
    signal: SignalView,
    now: u64,
    distances: Seq<u64>,
    i: int,
)
    requires
        k <= steps.len(),
        0 <= i < after(empty_chain(), steps, k).routes.len(),
        ({
            let chain = after(empty_chain(), steps, k);
            &&& chain.routes[i].from == signal.source
            &&& chain.routes[i].algorithm is OnChange
            &&& !suppresses(chain.deadband, chain.last[i], signal, distances[i])
        }),
    ensures
        ({
            let chain = after(empty_chain(), steps, k);
            outcome(chain, signal, now, distances, i) is Delivered <==> match last_delivery(
                steps,
                k,
                i,
            ) {
                Some((last, _)) => last.payload != signal.payload,
                None => true,
            }
        }),
{
    law_memory_of_history(steps, k, i);
}

/// What a call puts into a room: a signal that a route to it delivers, or one that is broadcast
/// from elsewhere, addressed to the room.
pub open spec fn arrivals(chain: ChainView, step: Step, room: Seq<char>) -> Seq<SignalView> {
    match step {
        Step::Send { signal, .. } => if exists|i: int|
            #[trigger] delivers(chain, step, i) && chain.routes[i].to == room {
            seq![signal]
        } else {
            Seq::empty()
        },
        Step::Broadcast { signal } => if chain.is_registered(room) && room != signal.source {
            seq![SignalView { target: room, ..signal }]
        } else {
            Seq::empty()
        },
        _ => Seq::empty(),
    }
}

/// What the first `k` calls on a new chain have put into a room since it received last, in order.
pub open spec fn arrived(steps: Seq<Step>, k: nat, room: Seq<char>) -> Seq<SignalView>
    decreases k,
{
    if k == 0 {
        Seq::empty()
    } else {
        let j = (k - 1) as nat;
        if steps[k - 1] == (Step::Receive { room }) {
            Seq::empty()
        } else {
            arrived(steps, j, room) + arrivals(after(empty_chain(), steps, j), steps[k - 1], room)
        }
    }
}

/// Routes lead to registered rooms only.
proof fn lemma_ends_are_registered(steps: Seq<Step>, k: nat)
    ensures
        ({
            let chain = after(empty_chain(), steps, k);
            forall|i: int|
                0 <= i < chain.routes.len() ==> chain.is_registered((#[trigger] chain.routes[i]).to)
        }),
    decreases k,
{
    if k > 0 {
        let j = (k - 1) as nat;
        let before = after(empty_chain(), steps, j);
        let chain = after(empty_chain(), steps, k);
        lemma_ends_are_registered(steps, j);
        if let Step::Send { signal, now, distances } = steps[k - 1] {
            law_sending_keeps_the_network(before, signal, now, distances);
        }
        assert forall|i: int| 0 <= i < chain.routes.len() implies chain.is_registered(
            (#[trigger] chain.routes[i]).to,
        ) by {
            if i < before.routes.len() {
                assert(chain.routes[i].to == before.routes[i].to);
                assert(before.is_registered(before.routes[i].to));
            }
        }
    }
}

/// In every chain, what waits in a room, and is received next, is exactly what was delivered or
/// broadcast to it since it received last, in that order.
pub proof fn law_receive(steps: Seq<Step>, k: nat, room: Seq<char>)
    requires
        k <= steps.len(),
    ensures
        waiting(after(empty_chain(), steps, k), room) == arrived(steps, k, room),
    decreases k,
{
    if k > 0 {
        let j = (k - 1) as nat;
        let before = after(empty_chain(), steps, j);
        let step = steps[k - 1];
        law_receive(steps, j, room);
        lemma_ends_are_registered(steps, j);
        match step {
            Step::Send { signal, now, distances } => {
                let n = before.routes.len();
                if exists|i: int| #[trigger] delivers(before, step, i) && before.routes[i].to
                    == room {
                    let i = choose|i: int| #[trigger]
                        delivers(before, step, i) && before.routes[i].to == room;
                    assert(before.routes[i].from == signal.source);
                    assert(has_way_out(before, signal.source));
                    assert(is_delivered_to(before, signal, now, distances, n, room));
                } else {
                    assert forall|i: int|
                        0 <= i < n && (#[trigger] before.routes[i]).to == room
                            && before.is_registered(signal.source) implies !(outcome(
                        before,
                        signal,
                        now,
                        distances,
                        i,
                    ) is Delivered) by {
                        assert(!delivers(before, step, i));
                    }
                }
            },
            _ => {},
        }
        assert(waiting(after(empty_chain(), steps, k), room) =~= arrived(steps, k, room));
    }
}

/// From a delivery on, as long as the clock does not go back, the route remembers a time that is
/// not before it.
proof fn lemma_since_delivery(start: ChainView, steps: Seq<Step>, a: nat, k: nat, i: int)
    requires
        start.last.len() == start.routes.len(),
        a < k <= steps.len(),
        clock_never_goes_back(steps),
        delivers(after(start, steps, a), steps[a as int], i),
    ensures
        ({
            let then = after(start, steps, a);
            let chain = after(start, steps, k);
            &&& 0 <= i < then.routes.len() <= chain.routes.len()
            &&& chain.last.len() == chain.routes.len()
            &&& chain.routes[i].algorithm == then.routes[i].algorithm
            &&& chain.routes[i].last_sent >= time_of(steps[a as int])
        }),
    decreases k,
{
    let j = (k - 1) as nat;
    lemma_lengths(start, steps, j);
    if j > a {
        lemma_since_delivery(start, steps, a, j, i);
    }
    law_step_keeps_route(after(start, steps, j), steps[j as int], i);
    if j > a && steps[j as int] is Send {
        assert(steps[a as int] is Send);
        assert(time_of(steps[a as int]) <= time_of(steps[j as int]));
    }
}

/// After any calls, the routes of a chain remember as many things as there are routes.
proof fn lemma_lengths(start: ChainView, steps: Seq<Step>, k: nat)
    requires
        start.last.len() == start.routes.len(),
    ensures
        after(start, steps, k).last.len() == after(start, steps, k).routes.len(),
    decreases k,
{
    if k > 0 {
        let j = (k - 1) as nat;
        lemma_lengths(start, steps, j);
        lemma_step_lengths(after(start, steps, j), steps[j as int]);
    }
}

/// Over any sequence of calls, as long as the clock does not go back, any two deliveries on a
/// sampled route are at least one interval apart.
pub proof fn law_at_most_once_per_interval(
    start: ChainView,
    steps: Seq<Step>,
    a: nat,
    b: nat,
    i: int,
    interval_ms: u64,
)
    requires
        start.valid(),
        a < b < steps.len(),
        clock_never_goes_back(steps),
        delivers(after(start, steps, a), steps[a as int], i),
        delivers(after(start, steps, b), steps[b as int], i),
        after(start, steps, a).routes[i].algorithm == (RoutingAlgorithm::Sampled { interval_ms }),
    ensures
        time_of(steps[b as int]) - time_of(steps[a as int]) >= interval_ms,
{
    lemma_since_delivery(start, steps, a, b, i);
    assert(steps[a as int] is Send && steps[b as int] is Send);
    assert(time_of(steps[a as int]) <= time_of(steps[b as int]));
}

} // verus!
