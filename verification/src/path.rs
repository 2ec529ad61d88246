//! Finding a way from room to room.
use crate::route::route_views;
use crate::route::Route;
use crate::route::RouteView;
use std::collections::VecDeque;
use vstd::hash_set::StringHashSet;
use vstd::prelude::*;

verus! {

// Walks. A walk is the sequence of the routes taken, each given by its position.

/// The room in which the walk `walk` from `from` stands after `k` of its routes.
pub open spec fn stop(
    routes: Seq<RouteView>,
    from: Seq<char>,
    walk: Seq<int>,
    k: int,
) -> Seq<char> {
    if k <= 0 {
        from
    } else {
        routes[walk[k - 1]].to
    }
}

/// Each route of `walk` starts where the one before it ends, the first one in `from`.
pub open spec fn is_walk(routes: Seq<RouteView>, from: Seq<char>, walk: Seq<int>) -> bool {
    forall|k: int|
        0 <= k < walk.len() ==> 0 <= #[trigger] walk[k] < routes.len() && routes[walk[k]].from
            == stop(routes, from, walk, k)
}

/// `walk` leads from `from` to `to`.
pub open spec fn leads(
    routes: Seq<RouteView>,
    from: Seq<char>,
    to: Seq<char>,
    walk: Seq<int>,
) -> bool {
    is_walk(routes, from, walk) && stop(routes, from, walk, walk.len() as int) == to
}

/// The rooms on a walk, both ends included.
pub open spec fn rooms_along(
    routes: Seq<RouteView>,
    from: Seq<char>,
    walk: Seq<int>,
) -> Seq<Seq<char>> {
    Seq::new(walk.len() + 1, |k: int| stop(routes, from, walk, k))
}

/// `a` and `b` take the same routes before position `k`, where `a` takes an earlier one.
pub open spec fn turns_off_earlier(a: Seq<int>, b: Seq<int>, k: int) -> bool {
    &&& 0 <= k < a.len()
    &&& k < b.len()
    &&& a[k] < b[k]
    &&& forall|j: int| 0 <= j < k ==> #[trigger] a[j] == b[j]
}

/// `a` is shorter than `b`, or as long and takes the earlier route where they part.
pub open spec fn precedes(a: Seq<int>, b: Seq<int>) -> bool {
    a.len() < b.len() || (a.len() == b.len() && exists|k: int| turns_off_earlier(a, b, k))
}

/// `a` is `b`, or precedes it.
pub open spec fn not_after(a: Seq<int>, b: Seq<int>) -> bool {
    a == b || precedes(a, b)
}

/// `walk` leads from `from` to `to`, no walk that does is shorter, and of those as short it takes,
/// where they part, the route that was added first.
pub open spec fn is_first_choice(
    routes: Seq<RouteView>,
    from: Seq<char>,
    to: Seq<char>,
    walk: Seq<int>,
) -> bool {
    leads(routes, from, to, walk) && forall|other: Seq<int>|
        #[trigger] leads(routes, from, to, other) ==> not_after(walk, other)
}

proof fn lemma_not_after_transitive(a: Seq<int>, b: Seq<int>, c: Seq<int>)
    requires
        not_after(a, b),
        not_after(b, c),
    ensures
        not_after(a, c),
{
    if a != b && b != c && a.len() == b.len() && b.len() == c.len() {
        let k = choose|k: int| turns_off_earlier(a, b, k);
        let l = choose|l: int| turns_off_earlier(b, c, l);
        let m = if k < l {
            k
        } else {
            l
        };
        assert forall|j: int| 0 <= j < m implies #[trigger] a[j] == c[j] by {
            assert(a[j] == b[j]);
            assert(b[j] == c[j]);
        }
        if k < l {
            assert(b[k] == c[k]);
        } else if l < k {
            assert(a[l] == b[l]);
        }
        assert(turns_off_earlier(a, c, m));
    }
}

proof fn lemma_precedes_push(a: Seq<int>, b: Seq<int>, i: int, j: int)
    requires
        precedes(a, b),
    ensures
        precedes(a.push(i), b.push(j)),
{
    if a.len() == b.len() {
        let k = choose|k: int| turns_off_earlier(a, b, k);
        assert forall|l: int| 0 <= l < k implies #[trigger] a.push(i)[l] == b.push(j)[l] by {
            assert(a[l] == b[l]);
        }
        assert(turns_off_earlier(a.push(i), b.push(j), k));
    }
}

proof fn lemma_siblings(a: Seq<int>, i: int, j: int)
    requires
        i < j,
    ensures
        precedes(a.push(i), a.push(j)),
{
    assert(turns_off_earlier(a.push(i), a.push(j), a.len() as int));
}

proof fn lemma_prefix_not_after(w: Seq<int>, k: int)
    requires
        0 <= k <= w.len(),
    ensures
        not_after(w.take(k), w),
{
    if k == w.len() {
        assert(w.take(k) =~= w);
    }
}

proof fn lemma_prefix_is_walk(routes: Seq<RouteView>, from: Seq<char>, walk: Seq<int>, k: int)
    requires
        is_walk(routes, from, walk),
        0 <= k <= walk.len(),
    ensures
        is_walk(routes, from, walk.take(k)),
        forall|j: int|
            0 <= j <= k ==> #[trigger] stop(routes, from, walk.take(k), j) == stop(
                routes,
                from,
                walk,
                j,
            ),
{
    assert forall|j: int| 0 <= j < k implies 0 <= #[trigger] walk.take(k)[j] < routes.len()
        && routes[walk.take(k)[j]].from == stop(routes, from, walk.take(k), j) by {
        assert(walk.take(k)[j] == walk[j]);
    }
}

proof fn lemma_walk_push(routes: Seq<RouteView>, from: Seq<char>, walk: Seq<int>, i: int)
    requires
        is_walk(routes, from, walk),
        0 <= i < routes.len(),
        routes[i].from == stop(routes, from, walk, walk.len() as int),
    ensures
        is_walk(routes, from, walk.push(i)),
        stop(routes, from, walk.push(i), (walk.len() + 1) as int) == routes[i].to,
        stop(routes, from, walk.push(i), walk.len() as int) == routes[i].from,
{
    assert forall|k: int| 0 <= k < walk.push(i).len() implies 0 <= #[trigger] walk.push(i)[k]
        < routes.len() && routes[walk.push(i)[k]].from == stop(
        routes,
        from,
        walk.push(i),
        k,
    ) by {
        if k < walk.len() {
            assert(walk.push(i)[k] == walk[k]);
        }
    }
}

// The search. `queue` holds the walks that are still to be looked at, `found` the first choice for
// each room that has been visited.

/// Every walk to look at is a step beyond a visited room, the walks stand in order, and every step
/// out of a visited room into one that is not is among them.
spec fn search_invariant(
    routes: Seq<RouteView>,
    from: Seq<char>,
    to: Seq<char>,
    queue: Seq<Seq<int>>,
    found: Map<Seq<char>, Seq<int>>,
) -> bool {
    &&& forall|i: int| 0 <= i < queue.len() ==> is_walk(routes, from, #[trigger] queue[i])
    &&& forall|i: int, j: int|
        0 <= i <= j < queue.len() ==> not_after(#[trigger] queue[i], #[trigger] queue[j])
    &&& forall|x: Seq<char>| #[trigger]
        found.contains_key(x) ==> is_first_choice(routes, from, x, found[x])
    &&& if found.contains_key(from) {
        forall|i: int|
            0 <= i < queue.len() ==> is_step_beyond(routes, from, found, #[trigger] queue[i])
    } else {
        found.dom() == Set::<Seq<char>>::empty() && queue == seq![Seq::<int>::empty()]
    }
    &&& forall|x: Seq<char>, i: int|
        #![trigger found.contains_key(x), routes[i]]
        found.contains_key(x) && 0 <= i < routes.len() && routes[i].from == x
            && !found.contains_key(routes[i].to) ==> queue.contains(found[x].push(i))
    &&& forall|x: Seq<char>, i: int|
        #![trigger found.contains_key(x), queue[i]]
        found.contains_key(x) && 0 <= i < queue.len() ==> not_after(found[x], queue[i])
    &&& !found.contains_key(to)
}

/// The walk without its last route is the first choice for a visited room.
spec fn is_step_beyond(
    routes: Seq<RouteView>,
    from: Seq<char>,
    found: Map<Seq<char>, Seq<int>>,
    walk: Seq<int>,
) -> bool {
    let x = stop(routes, from, walk, walk.len() - 1);
    walk.len() > 0 && found.contains_key(x) && found[x] == walk.drop_last()
}

/// A walk into a room that has not been visited begins with a step out of a visited one.
proof fn lemma_crossing(
    routes: Seq<RouteView>,
    from: Seq<char>,
    found: Map<Seq<char>, Seq<int>>,
    walk: Seq<int>,
) -> (k: int)
    requires
        found.contains_key(from),
        is_walk(routes, from, walk),
        !found.contains_key(stop(routes, from, walk, walk.len() as int)),
    ensures
        0 < k <= walk.len(),
        found.contains_key(stop(routes, from, walk, k - 1)),
        !found.contains_key(stop(routes, from, walk, k)),
    decreases walk.len(),
{
    let n = walk.len() as int;
    if found.contains_key(stop(routes, from, walk, n - 1)) {
        n
    } else {
        let shorter = walk.take(n - 1);
        lemma_prefix_is_walk(routes, from, walk, n - 1);
        assert(stop(routes, from, shorter, n - 1) == stop(routes, from, walk, n - 1));
        let k = lemma_crossing(routes, from, found, shorter);
        assert(stop(routes, from, shorter, k - 1) == stop(routes, from, walk, k - 1));
        assert(stop(routes, from, shorter, k) == stop(routes, from, walk, k));
        k
    }
}

/// For every walk into a room that has not been visited, the queue holds one that is not after it.
proof fn lemma_queue_covers(
    routes: Seq<RouteView>,
    from: Seq<char>,
    to: Seq<char>,
    queue: Seq<Seq<int>>,
    found: Map<Seq<char>, Seq<int>>,
    walk: Seq<int>,
) -> (i: int)
    requires
        search_invariant(routes, from, to, queue, found),
        is_walk(routes, from, walk),
        !found.contains_key(stop(routes, from, walk, walk.len() as int)),
    ensures
        0 <= i < queue.len(),
        not_after(queue[i], walk),
{
    if found.contains_key(from) {
        let k = lemma_crossing(routes, from, found, walk);
        let x = stop(routes, from, walk, k - 1);
        let hop = walk[k - 1];
        assert(routes[hop].from == x);
        assert(routes[hop].to == stop(routes, from, walk, k));
        lemma_prefix_is_walk(routes, from, walk, k - 1);
        assert(stop(routes, from, walk.take(k - 1), k - 1) == x);
        assert(leads(routes, from, x, walk.take(k - 1)));
        assert(is_first_choice(routes, from, x, found[x]));
        assert(not_after(found[x], walk.take(k - 1)));
        assert(walk.take(k - 1).push(hop) =~= walk.take(k));
        if found[x] != walk.take(k - 1) {
            lemma_precedes_push(found[x], walk.take(k - 1), hop, hop);
        }
        lemma_prefix_not_after(walk, k);
        lemma_not_after_transitive(found[x].push(hop), walk.take(k), walk);
        assert(queue.contains(found[x].push(hop)));
        choose|i: int| 0 <= i < queue.len() && queue[i] == found[x].push(hop)
    } else {
        assert(queue[0] == Seq::<int>::empty());
        if walk.len() == 0 {
            assert(walk =~= Seq::<int>::empty());
        }
        0
    }
}

/// A walk that comes up first and ends in a room that has not been visited is the first choice for
/// that room.
proof fn lemma_head_is_first_choice(
    routes: Seq<RouteView>,
    from: Seq<char>,
    to: Seq<char>,
    queue: Seq<Seq<int>>,
    found: Map<Seq<char>, Seq<int>>,
)
    requires
        search_invariant(routes, from, to, queue, found),
        queue.len() > 0,
        !found.contains_key(stop(routes, from, queue[0], queue[0].len() as int)),
    ensures
        is_first_choice(
            routes,
            from,
            stop(routes, from, queue[0], queue[0].len() as int),
            queue[0],
        ),
{
    let head = queue[0];
    let room = stop(routes, from, head, head.len() as int);
    assert forall|other: Seq<int>| #[trigger] leads(routes, from, room, other) implies not_after(
        head,
        other,
    ) by {
        let i = lemma_queue_covers(routes, from, to, queue, found, other);
        assert(not_after(queue[0], queue[i]));
        lemma_not_after_transitive(head, queue[i], other);
    }
}

/// With nothing left to look at, no walk leads to `to`.
proof fn lemma_exhausted(
    routes: Seq<RouteView>,
    from: Seq<char>,
    to: Seq<char>,
    found: Map<Seq<char>, Seq<int>>,
)
    requires
        search_invariant(routes, from, to, Seq::empty(), found),
    ensures
        forall|walk: Seq<int>| !#[trigger] leads(routes, from, to, walk),
{
    assert forall|walk: Seq<int>| !#[trigger] leads(routes, from, to, walk) by {
        if leads(routes, from, to, walk) {
            let i = lemma_queue_covers(routes, from, to, Seq::empty(), found, walk);
        }
    }
}

/// A walk into a visited room can be left out.
proof fn lemma_skip(
    routes: Seq<RouteView>,
    from: Seq<char>,
    to: Seq<char>,
    queue: Seq<Seq<int>>,
    found: Map<Seq<char>, Seq<int>>,
)
    requires
        search_invariant(routes, from, to, queue, found),
        queue.len() > 0,
        found.contains_key(stop(routes, from, queue[0], queue[0].len() as int)),
    ensures
        search_invariant(routes, from, to, queue.drop_first(), found),
{
    let rest = queue.drop_first();
    assert(found.contains_key(from)) by {
        if !found.contains_key(from) {
            assert(!found.dom().contains(stop(routes, from, queue[0], queue[0].len() as int)));
        }
    }
    assert forall|i: int| 0 <= i < rest.len() implies is_walk(routes, from, #[trigger] rest[i])
        && is_step_beyond(routes, from, found, rest[i]) by {
        assert(rest[i] == queue[i + 1]);
    }
    assert forall|i: int, j: int| 0 <= i <= j < rest.len() implies not_after(
        #[trigger] rest[i],
        #[trigger] rest[j],
    ) by {
        assert(not_after(queue[i + 1], queue[j + 1]));
    }
    assert forall|x: Seq<char>, i: int|
        #![trigger found.contains_key(x), routes[i]]
        found.contains_key(x) && 0 <= i < routes.len() && routes[i].from == x
            && !found.contains_key(routes[i].to) implies rest.contains(found[x].push(i)) by {
        let step = found[x].push(i);
        assert(queue.contains(step));
        let k = choose|k: int| 0 <= k < queue.len() && queue[k] == step;
        assert(is_first_choice(routes, from, x, found[x]));
        lemma_walk_push(routes, from, found[x], i);
        assert(k != 0);
        assert(rest[k - 1] == step);
    }
    assert forall|x: Seq<char>, i: int|
        #![trigger found.contains_key(x), rest[i]]
        found.contains_key(x) && 0 <= i < rest.len() implies not_after(found[x], rest[i]) by {
        assert(rest[i] == queue[i + 1]);
    }
}

/// The steps that lead from the end of `walk` over one of the first `n` routes into a room outside
/// `visited`, in the order of the routes.
spec fn steps(
    routes: Seq<RouteView>,
    room: Seq<char>,
    visited: Set<Seq<char>>,
    walk: Seq<int>,
    n: nat,
) -> Seq<Seq<int>>
    decreases n,
{
    if n == 0 {
        Seq::empty()
    } else {
        let before = steps(routes, room, visited, walk, (n - 1) as nat);
        if routes[n - 1].from == room && !visited.contains(routes[n - 1].to) {
            before.push(walk.push(n - 1))
        } else {
            before
        }
    }
}

/// Which steps there are, and that they stand in order.
proof fn lemma_steps(
    routes: Seq<RouteView>,
    room: Seq<char>,
    visited: Set<Seq<char>>,
    walk: Seq<int>,
    n: nat,
)
    requires
        n <= routes.len(),
    ensures
        forall|i: int|
            0 <= i < steps(routes, room, visited, walk, n).len() ==> ({
                let step = #[trigger] steps(routes, room, visited, walk, n)[i];
                let hop = step.last();
                &&& step.len() > 0
                &&& 0 <= hop < n
                &&& step == walk.push(hop)
                &&& routes[hop].from == room
                &&& !visited.contains(routes[hop].to)
            }),
        forall|i: int, j: int|
            0 <= i <= j < steps(routes, room, visited, walk, n).len() ==> not_after(
                #[trigger] steps(routes, room, visited, walk, n)[i],
                #[trigger] steps(routes, room, visited, walk, n)[j],
            ),
        forall|hop: int|
            0 <= hop < n && #[trigger] routes[hop].from == room && !visited.contains(
                routes[hop].to,
            ) ==> steps(routes, room, visited, walk, n).contains(walk.push(hop)),
    decreases n,
{
    if n > 0 {
        let m = (n - 1) as nat;
        lemma_steps(routes, room, visited, walk, m);
        let before = steps(routes, room, visited, walk, m);
        let all = steps(routes, room, visited, walk, n);
        if routes[m as int].from == room && !visited.contains(routes[m as int].to) {
            assert(walk.push(m as int).last() == m);
            assert forall|i: int, j: int| 0 <= i <= j < all.len() implies not_after(
                #[trigger] all[i],
                #[trigger] all[j],
            ) by {
                if j == before.len() && i < j {
                    assert(all[i] == before[i]);
                    lemma_siblings(walk, before[i].last(), m as int);
                } else if j < before.len() {
                    assert(all[i] == before[i] && all[j] == before[j]);
                }
            }
            assert forall|hop: int|
                0 <= hop < n && #[trigger] routes[hop].from == room && !visited.contains(
                    routes[hop].to,
                ) implies all.contains(walk.push(hop)) by {
                if hop < m {
                    assert(before.contains(walk.push(hop)));
                    let k = choose|k: int| 0 <= k < before.len() && before[k] == walk.push(hop);
                    assert(all[k] == walk.push(hop));
                } else {
                    assert(all[before.len() as int] == walk.push(hop));
                }
            }
        }
    }
}

/// Visiting the room at the end of the first walk, and queueing the steps out of it, keeps the
/// search in order.
proof fn lemma_visit(
    routes: Seq<RouteView>,
    from: Seq<char>,
    to: Seq<char>,
    queue: Seq<Seq<int>>,
    found: Map<Seq<char>, Seq<int>>,
)
    requires
        search_invariant(routes, from, to, queue, found),
        queue.len() > 0,
        !found.contains_key(stop(routes, from, queue[0], queue[0].len() as int)),
        stop(routes, from, queue[0], queue[0].len() as int) != to,
    ensures
        ({
            let head = queue[0];
            let room = stop(routes, from, head, head.len() as int);
            let found2 = found.insert(room, head);
            search_invariant(
                routes,
                from,
                to,
                queue.drop_first() + steps(routes, room, found2.dom(), head, routes.len()),
                found2,
            )
        }),
{
    let head = queue[0];
    let room = stop(routes, from, head, head.len() as int);
    let found2 = found.insert(room, head);
    let rest = queue.drop_first();
    let added = steps(routes, room, found2.dom(), head, routes.len());
    let queue2 = rest + added;
    lemma_head_is_first_choice(routes, from, to, queue, found);
    lemma_steps(routes, room, found2.dom(), head, routes.len());
    if !found.contains_key(from) {
        assert(head.len() == 0);
        assert(room == from);
        assert(rest.len() == 0);
    }
    assert(found2.contains_key(from));
    assert forall|x: Seq<char>| #[trigger] found2.contains_key(x) implies is_first_choice(
        routes,
        from,
        x,
        found2[x],
    ) by {
        if x != room {
            assert(found.contains_key(x));
        }
    }
    assert forall|i: int| 0 <= i < queue2.len() implies is_walk(routes, from, #[trigger] queue2[i])
        && is_step_beyond(routes, from, found2, queue2[i]) by {
        if i < rest.len() {
            assert(queue2[i] == queue[i + 1]);
            let walk = queue[i + 1];
            assert(is_step_beyond(routes, from, found, walk));
            let x = stop(routes, from, walk, walk.len() - 1);
            assert(x != room);
        } else {
            let step = added[i - rest.len()];
            assert(queue2[i] == step);
            lemma_walk_push(routes, from, head, step.last());
            assert(step.drop_last() =~= head);
        }
    }
    assert forall|i: int, j: int| 0 <= i <= j < queue2.len() implies not_after(
        #[trigger] queue2[i],
        #[trigger] queue2[j],
    ) by {
        if j < rest.len() {
            assert(not_after(queue[i + 1], queue[j + 1]));
        } else if i >= rest.len() {
            assert(not_after(added[i - rest.len()], added[j - rest.len()]));
        } else {
            let walk = queue[i + 1];
            let step = added[j - rest.len()];
            assert(queue2[i] == walk);
            assert(queue2[j] == step);
            let x = stop(routes, from, walk, walk.len() - 1);
            assert(is_step_beyond(routes, from, found, walk));
            assert(not_after(found[x], queue[0]));
            assert(is_first_choice(routes, from, x, found[x]));
            assert(found[x] != head);
            lemma_precedes_push(found[x], head, walk.last(), step.last());
            assert(walk =~= found[x].push(walk.last()));
        }
    }
    assert forall|x: Seq<char>, i: int|
        #![trigger found2.contains_key(x), routes[i]]
        found2.contains_key(x) && 0 <= i < routes.len() && routes[i].from == x
            && !found2.contains_key(routes[i].to) implies queue2.contains(
        found2[x].push(i),
    ) by {
        if x == room {
            assert(added.contains(head.push(i)));
            let k = choose|k: int| 0 <= k < added.len() && added[k] == head.push(i);
            assert(queue2[rest.len() + k] == head.push(i));
        } else {
            assert(found.contains_key(x));
            assert(queue.contains(found[x].push(i)));
            let k = choose|k: int| 0 <= k < queue.len() && queue[k] == found[x].push(i);
            assert(is_first_choice(routes, from, x, found[x]));
            lemma_walk_push(routes, from, found[x], i);
            assert(k != 0);
            assert(queue2[k - 1] == found[x].push(i));
        }
    }
    assert forall|x: Seq<char>, i: int|
        #![trigger found2.contains_key(x), queue2[i]]
        found2.contains_key(x) && 0 <= i < queue2.len() implies not_after(
        found2[x],
        queue2[i],
    ) by {
        if i < rest.len() {
            assert(queue2[i] == queue[i + 1]);
            assert(not_after(queue[0], queue[i + 1]));
            if x != room {
                assert(found.contains_key(x));
            }
        } else {
            let step = added[i - rest.len()];
            assert(queue2[i] == step);
            if x != room {
                assert(found.contains_key(x));
                assert(not_after(found[x], queue[0]));
                assert(not_after(head, step));
                lemma_not_after_transitive(found[x], head, step);
            }
        }
    }
}

/// How many of the first `n` routes lead into a room outside `visited`.
spec fn unvisited_ends(routes: Seq<RouteView>, visited: Set<Seq<char>>, n: nat) -> nat
    decreases n,
{
    if n == 0 {
        0
    } else {
        unvisited_ends(routes, visited, (n - 1) as nat) + if visited.contains(
            routes[n - 1].to,
        ) {
            0nat
        } else {
            1
        }
    }
}

/// How much is left to visit.
spec fn unvisited(routes: Seq<RouteView>, from: Seq<char>, visited: Set<Seq<char>>) -> nat {
    unvisited_ends(routes, visited, routes.len()) + if visited.contains(from) {
        0nat
    } else {
        1
    }
}

proof fn lemma_unvisited_ends_decrease(
    routes: Seq<RouteView>,
    visited: Set<Seq<char>>,
    room: Seq<char>,
    n: nat,
)
    ensures
        unvisited_ends(routes, visited.insert(room), n) <= unvisited_ends(routes, visited, n),
        (exists|i: int| 0 <= i < n && #[trigger] routes[i].to == room) && !visited.contains(room)
            ==> unvisited_ends(routes, visited.insert(room), n) < unvisited_ends(
            routes,
            visited,
            n,
        ),
    decreases n,
{
    if n > 0 {
        lemma_unvisited_ends_decrease(routes, visited, room, (n - 1) as nat);
    }
}

/// Visiting the room at the end of a walk leaves less to visit.
proof fn lemma_unvisited_decreases(
    routes: Seq<RouteView>,
    from: Seq<char>,
    visited: Set<Seq<char>>,
    walk: Seq<int>,
)
    requires
        is_walk(routes, from, walk),
        !visited.contains(stop(routes, from, walk, walk.len() as int)),
    ensures
        unvisited(
            routes,
            from,
            visited.insert(stop(routes, from, walk, walk.len() as int)),
        ) < unvisited(routes, from, visited),
{
    let room = stop(routes, from, walk, walk.len() as int);
    lemma_unvisited_ends_decrease(routes, visited, room, routes.len());
    if walk.len() > 0 {
        let hop = walk[walk.len() - 1];
        assert(routes[hop].to == room);
    }
}

/// The positions of a walk as they are held.
pub open spec fn hops(walk: Seq<usize>) -> Seq<int> {
    walk.map_values(|i: usize| i as int)
}

/// The walks that are queued.
spec fn queued(queue: Seq<Vec<usize>>) -> Seq<Seq<int>> {
    queue.map_values(|walk: Vec<usize>| hops(walk@))
}

/// The room in which a walk ends.
fn end_of<'a>(routes: &'a Vec<Route>, from: &'a String, walk: &Vec<usize>) -> (r: &'a String)
    requires
        is_walk(route_views(routes@), from@, hops(walk@)),
    ensures
        r@ == stop(route_views(routes@), from@, hops(walk@), walk@.len() as int),
{
    if walk.len() == 0 {
        from
    } else {
        let last: usize = walk.len() - 1;
        assert(hops(walk@)[last as int] == walk@[last as int]);
        &routes[walk[last]].to
    }
}

/// Finds the first choice among the walks from `from` to `to`, breadth first.
pub fn find_walk(routes: &Vec<Route>, from: &String, to: &String) -> (r: Option<Vec<usize>>)
    ensures
        match r {
            Some(walk) => is_first_choice(route_views(routes@), from@, to@, hops(walk@)),
            None => forall|walk: Seq<int>|
                !#[trigger] leads(route_views(routes@), from@, to@, walk),
        },
{
    let ghost views = route_views(routes@);
    let mut visited: StringHashSet = StringHashSet::new();
    let mut queue: VecDeque<Vec<usize>> = VecDeque::new();
    let ghost mut found: Map<Seq<char>, Seq<int>> = Map::empty();
    let start: Vec<usize> = Vec::new();
    queue.push_back(start);
    proof {
        assert(hops(start@) =~= Seq::<int>::empty());
        assert(queued(queue@) =~= seq![Seq::<int>::empty()]);
        assert(visited@ =~= found.dom());
    }
    loop
        invariant
            views == route_views(routes@),
            visited@ == found.dom(),
            search_invariant(views, from@, to@, queued(queue@), found),
        decreases unvisited(views, from@, visited@), queue@.len(),
    {
        let ghost before = queued(queue@);
        match queue.pop_front() {
            None => {
                proof {
                    assert(before =~= Seq::<Seq<int>>::empty());
                    lemma_exhausted(views, from@, to@, found);
                }
                return None;
            },
            Some(walk) => {
                let ghost head = hops(walk@);
                proof {
                    assert(before[0] == head);
                    assert(queued(queue@) =~= before.drop_first());
                }
                let current = end_of(routes, from, &walk);
                if *current == *to {
                    proof {
                        lemma_head_is_first_choice(views, from@, to@, before, found);
                    }
                    return Some(walk);
                }
                if visited.contains(current.as_str()) {
                    proof {
                        lemma_skip(views, from@, to@, before, found);
                    }
                } else {
                    visited.insert(current.clone());
                    proof {
                        lemma_visit(views, from@, to@, before, found);
                        lemma_unvisited_decreases(views, from@, found.dom(), head);
                        found = found.insert(current@, head);
                        assert(visited@ =~= found.dom());
                        assert(before.drop_first() + steps(
                            views,
                            current@,
                            found.dom(),
                            head,
                            0,
                        ) =~= before.drop_first());
                    }
                    let mut i: usize = 0;
                    while i < routes.len()
                        invariant
                            views == route_views(routes@),
                            head == hops(walk@),
                            i <= routes@.len(),
                            visited@ == found.dom(),
                            queued(queue@) == before.drop_first() + steps(
                                views,
                                current@,
                                found.dom(),
                                head,
                                i as nat,
                            ),
                        decreases routes@.len() - i,
                    {
                        let ghost q = queue@;
                        let ghost done = steps(views, current@, found.dom(), head, i as nat);
                        if routes[i].from == *current && !visited.contains(routes[i].to.as_str()) {
                            let mut step = walk.clone();
                            step.push(i);
                            queue.push_back(step);
                            proof {
                                assert(hops(step@) =~= head.push(i as int));
                                assert(queued(queue@) =~= queued(q).push(hops(step@)));
                                assert(before.drop_first() + done.push(head.push(i as int))
                                    =~= (before.drop_first() + done).push(head.push(i as int)));
                            }
                        }
                        i = i + 1;
                    }
                }
            },
        }
    }
}

/// The names of the rooms on a walk, both ends included.
pub fn names_along(routes: &Vec<Route>, from: &String, walk: &Vec<usize>) -> (r: Vec<String>)
    requires
        is_walk(route_views(routes@), from@, hops(walk@)),
    ensures
        r@.map_values(|s: String| s@) == rooms_along(
            route_views(routes@),
            from@,
            hops(walk@),
        ),
{
    let ghost views = route_views(routes@);
    let mut r: Vec<String> = Vec::new();
    r.push(from.clone());
    let mut i: usize = 0;
    while i < walk.len()
        invariant
            views == route_views(routes@),
            is_walk(views, from@, hops(walk@)),
            i <= walk@.len(),
            r@.len() == i + 1,
            forall|k: int|
                0 <= k <= i ==> #[trigger] r@[k]@ == stop(views, from@, hops(walk@), k),
        decreases walk@.len() - i,
    {
        assert(hops(walk@)[i as int] == walk@[i as int]);
        r.push(routes[walk[i]].to.clone());
        i = i + 1;
    }
    assert(r@.map_values(|s: String| s@) =~= rooms_along(views, from@, hops(walk@)));
    r
}

} // verus!
